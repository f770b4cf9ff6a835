//! What looking up a header means, letter by letter.

use crate::headers::Field;
use crate::http::message;
use crate::http::message::{Request, Response};
use crate::lex;
use vstd::prelude::*;
use vstd::utf8::*;

verus! {

/// `c` and `d` are the same letter, big or small, or the same character.
pub open spec fn same_letter(c: char, d: char) -> bool {
    ||| c == d
    ||| 'A' <= c <= 'Z' && d as int == c as int + 32
    ||| 'A' <= d <= 'Z' && c as int == d as int + 32
}

/// `name` is `want`, letter by letter, whether big or small.
pub open spec fn is_called(name: Seq<char>, want: Seq<char>) -> bool {
    &&& name.len() == want.len()
    &&& forall|i: int| 0 <= i < want.len() ==> same_letter(#[trigger] name[i], want[i])
}

/// The `i`-th of `fields` is called `want`, and none before it is.
pub open spec fn is_first_called(fields: Seq<Field>, want: Seq<char>, i: int) -> bool {
    &&& 0 <= i < fields.len()
    &&& is_called(fields[i].0, want)
    &&& forall|j: int| 0 <= j < i ==> !is_called((#[trigger] fields[j]).0, want)
}

/// None of `fields` is called `want`.
pub open spec fn none_is_called(fields: Seq<Field>, want: Seq<char>) -> bool {
    forall|i: int| 0 <= i < fields.len() ==> !is_called((#[trigger] fields[i]).0, want)
}

/// `found` is what looking up `want` in `fields` gives.
pub open spec fn is_lookup(fields: Seq<Field>, want: Seq<char>, found: Option<Seq<char>>) -> bool {
    match found {
        Some(value) => exists|i: int| #[trigger]
            is_first_called(fields, want, i) && fields[i].1 == value,
        None => none_is_called(fields, want),
    }
}

/// A text all of whose bytes are ASCII is made of as many ASCII characters.
pub proof fn ascii_bytes_are_ascii_text(t: Seq<char>)
    requires
        forall|i: int| 0 <= i < encode_utf8(t).len() ==> #[trigger] encode_utf8(t)[i] < 128,
    ensures
        is_ascii_chars(t),
    decreases t.len(),
{
    if t.len() > 0 {
        let rest = t.drop_first();
        let first = encode_scalar(t[0] as u32);
        assert(encode_utf8(t) =~= first + encode_utf8(rest));
        assert forall|i: int| 0 <= i < encode_utf8(rest).len() implies #[trigger] encode_utf8(
            rest,
        )[i] < 128 by {
            assert(encode_utf8(t)[first.len() + i] == encode_utf8(rest)[i]);
        }
        ascii_bytes_are_ascii_text(rest);
        let x = t[0] as u32;
        char_is_scalar(t[0]);
        char_u32_cast(t[0], x);
        assert(encode_utf8(t)[first.len() - 1] == first.last());
        assert((0x80u8 | ((x & 0x3f) as u8)) >= 128) by (bit_vector);
        assert(x <= 0x7f);
        assert forall|i: int| 0 <= i < t.len() implies '\0' <= #[trigger] t[i] <= '\u{7f}' by {
            if i > 0 {
                assert(t[i] == rest[i - 1]);
            }
        }
    }
}

/// For a name made of ASCII characters, being called so is a matter of letters.
pub proof fn a_name_is_matched_letter_by_letter(name: Seq<char>, want: Seq<char>)
    requires
        is_ascii_chars(want),
    ensures
        lex::same_name(name, want) == is_called(name, want),
{
    let x = encode_utf8(name);
    let y = encode_utf8(want);
    is_ascii_chars_encode_utf8(want);
    if lex::same_name(name, want) {
        assert forall|i: int| 0 <= i < x.len() implies #[trigger] x[i] < 128 by {
            assert(want[i] as u8 == y[i]);
            assert(lex::lowered(x[i]) == lex::lowered(y[i]));
        }
        ascii_bytes_are_ascii_text(name);
        is_ascii_chars_encode_utf8(name);
        assert forall|i: int| 0 <= i < want.len() implies same_letter(#[trigger] name[i], want[i]) by {
            assert(name[i] as u8 == x[i] && want[i] as u8 == y[i]);
            assert(lex::lowered(x[i]) == lex::lowered(y[i]));
        }
    }
    if is_called(name, want) {
        assert forall|i: int| 0 <= i < name.len() implies '\0' <= #[trigger] name[i] <= '\u{7f}' by {
            assert(same_letter(name[i], want[i]));
            assert('\0' <= want[i] <= '\u{7f}');
        }
        is_ascii_chars_encode_utf8(name);
        assert forall|i: int| 0 <= i < x.len() implies lex::lowered(#[trigger] x[i])
            == lex::lowered(#[trigger] y[i]) by {
            assert(name[i] as u8 == x[i] && want[i] as u8 == y[i]);
            assert(same_letter(name[i], want[i]));
        }
    }
}

/// Looking up a header gives the value of the first one that is called so, all of it
/// and whatever it is, and nothing exactly where none is called so.
pub proof fn the_first_header_so_called_is_found(fields: Seq<Field>, want: Seq<char>)
    requires
        is_ascii_chars(want),
    ensures
        forall|i: int| #[trigger]
            is_first_called(fields, want, i) ==> message::header_value(fields, want) == Some(
                fields[i].1,
            ),
        message::header_value(fields, want) is None <==> none_is_called(fields, want),
        message::header_value(fields, want) is Some ==> exists|i: int| #[trigger]
            is_first_called(fields, want, i),
        is_lookup(fields, want, message::header_value(fields, want)),
    decreases fields.len(),
{
    if fields.len() > 0 {
        let rest = fields.drop_first();
        a_name_is_matched_letter_by_letter(fields[0].0, want);
        the_first_header_so_called_is_found(rest, want);
        assert forall|i: int| #[trigger]
            is_first_called(fields, want, i) implies message::header_value(fields, want) == Some(
            fields[i].1,
        ) by {
            if i > 0 {
                assert(!is_called(fields[0].0, want));
                assert(rest[i - 1] == fields[i]);
                assert forall|j: int| 0 <= j < i - 1 implies !is_called(
                    (#[trigger] rest[j]).0,
                    want,
                ) by {
                    assert(rest[j] == fields[j + 1]);
                }
                assert(is_first_called(rest, want, i - 1));
            }
        }
        if is_called(fields[0].0, want) {
            assert(is_first_called(fields, want, 0));
        } else {
            if none_is_called(rest, want) {
                assert forall|i: int| 0 <= i < fields.len() implies !is_called(
                    (#[trigger] fields[i]).0,
                    want,
                ) by {
                    if i > 0 {
                        assert(fields[i] == rest[i - 1]);
                    }
                }
            } else {
                let i = choose|i: int| #[trigger] is_first_called(rest, want, i);
                assert(fields[i + 1] == rest[i]);
                assert forall|j: int| 0 <= j < i + 1 implies !is_called(
                    (#[trigger] fields[j]).0,
                    want,
                ) by {
                    if j > 0 {
                        assert(fields[j] == rest[j - 1]);
                    }
                }
                assert(is_first_called(fields, want, i + 1));
            }
        }
    }
}

/// The model of a request holds what the request holds, part by part.
pub proof fn a_request_is_modelled_whole(request: Request)
    ensures
        request@.method == request.method@,
        request@.target == request.target@,
        request@.body == request.body@,
        request@.headers.len() == request.headers@.len(),
        forall|i: int|
            0 <= i < request.headers@.len() ==> #[trigger] request@.headers[i] == (
                request.headers@[i].0@,
                request.headers@[i].1@,
            ),
{
}

/// The model of a response holds what the response holds, part by part.
pub proof fn a_response_is_modelled_whole(response: Response)
    ensures
        response@.status == response.status,
        response@.body == response.body@,
        response@.headers.len() == response.headers@.len(),
        forall|i: int|
            0 <= i < response.headers@.len() ==> #[trigger] response@.headers[i] == (
                response.headers@[i].0@,
                response.headers@[i].1@,
            ),
{
}

} // verus!
