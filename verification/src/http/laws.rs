//! What the HTTP layer guarantees: what is written parses back, and a message
//! that has settled does not depend on what follows it.

use crate::headers::Field;
use crate::http::message;
use crate::http::message::{RequestView, ResponseView};
use crate::http::parse;
use crate::http::parse::HttpError;
use crate::http::serialize;
use crate::lex;
use vstd::prelude::*;
use vstd::utf8::*;

verus! {

/// The text does not contain the ASCII character with code `b`.
pub open spec fn lacks(t: Seq<char>, b: u8) -> bool {
    forall|i: int| 0 <= i < encode_utf8(t).len() ==> #[trigger] encode_utf8(t)[i] != b
}

/// The text does not start or end with white space.
pub open spec fn is_tidy(t: Seq<char>) -> bool {
    t.len() > 0 ==> !lex::is_white(t[0]) && !lex::is_white(t.last())
}

/// A header that can be told from the ones around it: no line feed in it, no colon
/// in its name, and no white space around either part.
pub open spec fn is_sendable_field(f: Field) -> bool {
    &&& lacks(f.0, 10)
    &&& lacks(f.0, 58)
    &&& is_tidy(f.0)
    &&& lacks(f.1, 10)
    &&& is_tidy(f.1)
}

pub open spec fn are_sendable(fields: Seq<Field>) -> bool {
    forall|i: int| 0 <= i < fields.len() ==> is_sendable_field(#[trigger] fields[i])
}

/// A method or target: not empty, and no space or line feed in it.
pub open spec fn is_word(t: Seq<char>) -> bool {
    &&& t.len() > 0
    &&& lacks(t, 32)
    &&& lacks(t, 10)
}

// ---------------------------------------------------------------------------
// Literals
// ---------------------------------------------------------------------------

proof fn ascii_bytes(t: Seq<char>)
    requires
        is_ascii_chars(t),
    ensures
        encode_utf8(t).len() == t.len(),
        forall|i: int| 0 <= i < t.len() ==> #[trigger] encode_utf8(t)[i] == t[i] as u8,
{
    is_ascii_chars_encode_utf8(t);
    assert forall|i: int| 0 <= i < t.len() implies #[trigger] encode_utf8(t)[i] == t[i] as u8 by {
        assert(t[i] as u8 == encode_utf8(t)[i]);
    }
}

proof fn line_end_bytes()
    ensures
        encode_utf8("\r\n"@) == seq![13u8, 10u8],
{
    reveal_strlit("\r\n");
    ascii_bytes("\r\n"@);
    assert(encode_utf8("\r\n"@) =~= seq![13u8, 10u8]);
}

proof fn decimal_is_plain(n: nat)
    ensures
        lacks(lex::decimal_text(n), 10),
        lacks(lex::decimal_text(n), 32),
        is_tidy(lex::decimal_text(n)),
        lex::decimal_text(n).len() > 0,
{
    lex::decimal_bytes(n);
    lex::decimal_reads_back(n);
    let t = lex::decimal_text(n);
    assert(48 <= lex::decimal(n)[0] <= 57);
    assert(48 <= lex::decimal(n)[t.len() - 1] <= 57);
    assert(48 <= t[0] as u32 && t[0] as u32 <= 57);
    assert(48 <= t.last() as u32 && t.last() as u32 <= 57);
}

proof fn length_line_is_a_header(n: nat)
    ensures
        serialize::length_line(n) == serialize::header_line(("Content-Length"@, lex::decimal_text(n))),
        is_sendable_field(("Content-Length"@, lex::decimal_text(n))),
        lex::same_name("Content-Length"@, "content-length"@),
{
    reveal_strlit("Content-Length: ");
    reveal_strlit("Content-Length");
    reveal_strlit(": ");
    reveal_strlit("content-length");
    assert("Content-Length: "@ =~= "Content-Length"@ + ": "@);
    lex::encoding_of_sum("Content-Length"@, ": "@);
    lex::decimal_bytes(n);
    decimal_is_plain(n);
    ascii_bytes("Content-Length"@);
    ascii_bytes("content-length"@);
    assert(serialize::length_line(n) =~= serialize::header_line(("Content-Length"@, lex::decimal_text(n))));
    let x = encode_utf8("Content-Length"@);
    let y = encode_utf8("content-length"@);
    assert forall|i: int| 0 <= i < x.len() implies lex::lowered(#[trigger] x[i]) == lex::lowered(
        #[trigger] y[i],
    ) && x[i] != 10 && x[i] != 58 by {
        assert(x[i] == "Content-Length"@[i] as u8);
        assert(y[i] == "content-length"@[i] as u8);
    }
}

proof fn connection_line_is_a_header()
    ensures
        encode_utf8("Connection: close\r\n"@) == serialize::header_line(("Connection"@, "close"@)),
        is_sendable_field(("Connection"@, "close"@)),
{
    reveal_strlit("Connection: close\r\n");
    reveal_strlit("Connection");
    reveal_strlit(": ");
    reveal_strlit("close");
    reveal_strlit("\r\n");
    assert("Connection: close\r\n"@ =~= "Connection"@ + ": "@ + "close"@ + "\r\n"@);
    lex::encoding_of_sum("Connection"@ + ": "@ + "close"@, "\r\n"@);
    lex::encoding_of_sum("Connection"@ + ": "@, "close"@);
    lex::encoding_of_sum("Connection"@, ": "@);
    ascii_bytes("Connection"@);
    ascii_bytes("close"@);
    assert forall|i: int|
        0 <= i < encode_utf8("Connection"@).len() implies #[trigger] encode_utf8("Connection"@)[i]
        != 10 && encode_utf8("Connection"@)[i] != 58 by {
        assert(encode_utf8("Connection"@)[i] == "Connection"@[i] as u8);
    }
    assert forall|i: int|
        0 <= i < encode_utf8("close"@).len() implies #[trigger] encode_utf8("close"@)[i] != 10 by {
        assert(encode_utf8("close"@)[i] == "close"@[i] as u8);
    }
}

// ---------------------------------------------------------------------------
// Lines
// ---------------------------------------------------------------------------

/// The last byte of a text is a line ending only where its last character is.
pub proof fn last_byte(t: Seq<char>)
    requires
        t.len() > 0,
        t.last() != '\r',
        t.last() != '\n',
    ensures
        encode_utf8(t).len() > 0,
        encode_utf8(t).last() != 13,
        encode_utf8(t).last() != 10,
{
    let c = t.last();
    assert(t =~= t.drop_last() + seq![c]);
    lex::encoding_of_sum(t.drop_last(), seq![c]);
    let one = seq![c];
    assert(one.drop_first() =~= Seq::<char>::empty());
    assert(encode_utf8(one.drop_first()) =~= Seq::<u8>::empty());
    assert(encode_utf8(one) =~= encode_scalar(c as u32));
    let x = c as u32;
    char_is_scalar(c);
    char_u32_cast(c, x);
    assert(x != 13 && x != 10);
    assert(x <= 0x7f && x != 13 && x != 10 ==> (x & 0x7f) as u8 != 13 && (x & 0x7f) as u8 != 10)
        by (bit_vector);
    assert((0x80u8 | ((x & 0x3f) as u8)) >= 128) by (bit_vector);
    assert(encode_utf8(t).last() == encode_scalar(x).last());
}

/// How a line is read that has no line feed inside and no line ending at its end.
proof fn line_reads_back(t: Seq<char>, more: Seq<u8>)
    requires
        lacks(t, 10),
        t.len() > 0 ==> t.last() != '\r' && t.last() != '\n',
    ensures
        ({
            let b = encode_utf8(t) + encode_utf8("\r\n"@) + more;
            let n = parse::line_len(b);
            &&& n == encode_utf8(t).len() + 2
            &&& valid_utf8(b.take(n))
            &&& parse::chopped(b.take(n)) == encode_utf8(t)
            &&& b.skip(n) == more
        }),
{
    line_end_bytes();
    let line = encode_utf8(t);
    let raw = line + seq![13u8, 10u8];
    let b = line + encode_utf8("\r\n"@) + more;
    assert(b =~= raw + more);
    let at = line.len() as int + 1;
    assert forall|i: int| 0 <= i < at implies #[trigger] b[i] != 10 by {
        if i < line.len() {
            assert(b[i] == line[i]);
        }
    }
    assert(b[at] == 10);
    lex::first_index_at(b, 10u8, at);
    assert(b.take(at + 1) =~= raw);
    assert(b.skip(at + 1) =~= more);
    lex::encoding_of_sum(t, "\r\n"@);
    encode_utf8_valid_utf8(t + "\r\n"@);
    assert(raw.drop_last() =~= line.push(13));
    assert(raw.drop_last().drop_last() =~= line);
    if t.len() > 0 {
        last_byte(t);
    } else {
        assert(line =~= Seq::<u8>::empty());
    }
    reveal_with_fuel(parse::chopped, 3);
}

/// A header that is written reads back, with the rest behind it.
proof fn header_reads_back(f: Field, more: Seq<u8>)
    requires
        is_sendable_field(f),
    ensures
        parse::headers_of(serialize::header_line(f) + more) == (match parse::headers_of(more) {
            Err(e) => Err::<(Seq<Field>, Seq<u8>), HttpError>(e),
            Ok((fields, rest)) => Ok((seq![f] + fields, rest)),
        }),
{
    reveal_strlit(": ");
    let colon = ": "@;
    ascii_bytes(colon);
    let t = f.0 + colon + f.1;
    lex::encoding_of_sum(f.0 + colon, f.1);
    lex::encoding_of_sum(f.0, colon);
    let name = encode_utf8(f.0);
    let value = encode_utf8(f.1);
    let line = encode_utf8(t);
    assert(encode_utf8(colon) =~= seq![58u8, 32u8]);
    assert(line =~= name + seq![58u8, 32u8] + value);
    assert forall|i: int| 0 <= i < line.len() implies #[trigger] line[i] != 10 by {
        if i < name.len() {
            assert(line[i] == name[i]);
        } else if i >= name.len() + 2 {
            assert(line[i] == value[i - name.len() - 2]);
        }
    }
    if f.1.len() > 0 {
        assert(t.last() == f.1.last());
    } else {
        assert(t.last() == ' ');
    }
    line_reads_back(t, more);
    let b = serialize::header_line(f) + more;
    assert(b =~= line + encode_utf8("\r\n"@) + more);
    assert forall|i: int| 0 <= i < name.len() implies #[trigger] line[i] != 58 by {
        assert(line[i] == name[i]);
    }
    assert(line[name.len() as int] == 58);
    lex::first_index_at(line, 58u8, name.len() as int);
    assert(line.take(name.len() as int) =~= name);
    encode_utf8_decode_utf8(f.0);
    lex::tidy_text_is_trimmed(f.0);
    let tail = seq![' '] + f.1;
    lex::encoding_of_sum(seq![' '], f.1);
    ascii_bytes(seq![' ']);
    assert(line.skip(name.len() as int + 1) =~= encode_utf8(tail));
    encode_utf8_decode_utf8(tail);
    lex::tidy_text_is_trimmed(f.1);
    lex::leading_space_is_dropped(f.1);
}

proof fn header_lines_from_the_front(fields: Seq<Field>)
    requires
        fields.len() > 0,
    ensures
        serialize::header_lines(fields) == serialize::header_line(fields[0]) + serialize::header_lines(
            fields.drop_first(),
        ),
    decreases fields.len(),
{
    if fields.len() == 1 {
        assert(fields.drop_last() =~= Seq::<Field>::empty());
        assert(fields.drop_first() =~= Seq::<Field>::empty());
        assert(serialize::header_lines(fields) =~= serialize::header_line(fields[0])
            + serialize::header_lines(fields.drop_first()));
    } else {
        header_lines_from_the_front(fields.drop_last());
        assert(fields.drop_last().drop_first() =~= fields.drop_first().drop_last());
        assert(serialize::header_lines(fields) =~= serialize::header_line(fields[0])
            + serialize::header_lines(fields.drop_first()));
    }
}

/// A list of headers that is written reads back, with the rest behind it.
proof fn headers_read_back(fields: Seq<Field>, more: Seq<u8>)
    requires
        are_sendable(fields),
    ensures
        parse::headers_of(serialize::header_lines(fields) + more) == (match parse::headers_of(more) {
            Err(e) => Err::<(Seq<Field>, Seq<u8>), HttpError>(e),
            Ok((found, rest)) => Ok((fields + found, rest)),
        }),
    decreases fields.len(),
{
    if fields.len() == 0 {
        assert(serialize::header_lines(fields) + more =~= more);
        if let Ok((found, rest)) = parse::headers_of(more) {
            assert(fields + found =~= found);
        }
    } else {
        let rest_fields = fields.drop_first();
        header_lines_from_the_front(fields);
        let tail = serialize::header_lines(rest_fields) + more;
        assert(serialize::header_lines(fields) + more =~= serialize::header_line(fields[0]) + tail);
        assert(is_sendable_field(fields[0]));
        header_reads_back(fields[0], tail);
        assert forall|i: int| 0 <= i < rest_fields.len() implies is_sendable_field(
            #[trigger] rest_fields[i],
        ) by {
            assert(rest_fields[i] == fields[i + 1]);
        }
        headers_read_back(rest_fields, more);
        if let Ok((found, rest)) = parse::headers_of(more) {
            assert(seq![fields[0]] + (rest_fields + found) =~= fields + found);
        }
    }
}

/// A blank line ends the headers.
proof fn blank_line_ends_the_headers(body: Seq<u8>)
    ensures
        parse::headers_of(encode_utf8("\r\n"@) + body) == Ok::<(Seq<Field>, Seq<u8>), HttpError>(
            (Seq::<Field>::empty(), body),
        ),
{
    let none = Seq::<char>::empty();
    assert(encode_utf8(none) =~= Seq::<u8>::empty());
    line_reads_back(none, body);
    assert(encode_utf8(none) + encode_utf8("\r\n"@) + body =~= encode_utf8("\r\n"@) + body);
    line_end_bytes();
}

// ---------------------------------------------------------------------------
// Round trips
// ---------------------------------------------------------------------------

proof fn request_fields_are_clean(fields: Seq<Field>)
    requires
        are_sendable(fields),
    ensures
        are_sendable(serialize::request_fields(fields)),
        forall|i: int|
            0 <= i < serialize::request_fields(fields).len() ==> !serialize::owned_in_request(
                (#[trigger] serialize::request_fields(fields)[i]).0,
            ),
    decreases fields.len(),
{
    if fields.len() > 0 {
        let init = fields.drop_last();
        assert forall|i: int| 0 <= i < init.len() implies is_sendable_field(#[trigger] init[i]) by {
            assert(init[i] == fields[i]);
        }
        request_fields_are_clean(init);
        assert(is_sendable_field(fields[fields.len() - 1]));
    }
}

proof fn response_fields_are_clean(fields: Seq<Field>)
    requires
        are_sendable(fields),
    ensures
        are_sendable(serialize::response_fields(fields)),
    decreases fields.len(),
{
    if fields.len() > 0 {
        let init = fields.drop_last();
        assert forall|i: int| 0 <= i < init.len() implies is_sendable_field(#[trigger] init[i]) by {
            assert(init[i] == fields[i]);
        }
        response_fields_are_clean(init);
        assert(is_sendable_field(fields[fields.len() - 1]));
    }
}

/// Headers that do not bear a name are passed over in looking for it.
proof fn lookup_passes_over(fields: Seq<Field>, more: Seq<Field>, name: Seq<char>)
    requires
        forall|i: int|
            0 <= i < fields.len() ==> !lex::same_name((#[trigger] fields[i]).0, name),
    ensures
        message::header_value(fields + more, name) == message::header_value(more, name),
    decreases fields.len(),
{
    if fields.len() == 0 {
        assert(fields + more =~= more);
    } else {
        assert(!lex::same_name(fields[0].0, name));
        let rest = fields.drop_first();
        assert forall|i: int| 0 <= i < rest.len() implies !lex::same_name(
            (#[trigger] rest[i]).0,
            name,
        ) by {
            assert(rest[i] == fields[i + 1]);
        }
        lookup_passes_over(rest, more, name);
        assert((fields + more).drop_first() =~= rest + more);
        assert((fields + more)[0] == fields[0]);
    }
}

/// The headers that a request carries on the wire.
pub open spec fn wire_request_fields(r: RequestView) -> Seq<Field> {
    serialize::request_fields(r.headers) + seq![
        ("Content-Length"@, lex::decimal_text(r.body.len())),
        ("Connection"@, "close"@),
    ]
}

/// The headers that a response carries on the wire.
pub open spec fn wire_response_fields(r: ResponseView) -> Seq<Field> {
    seq![("Content-Length"@, lex::decimal_text(r.body.len()))] + serialize::response_fields(r.headers)
}

/// The head of a request after its request line, with the body behind it.
spec fn request_rest(r: RequestView) -> Seq<u8> {
    serialize::header_lines(serialize::request_fields(r.headers)) + (serialize::header_line(
        ("Content-Length"@, lex::decimal_text(r.body.len())),
    ) + (serialize::header_line(("Connection"@, "close"@)) + (encode_utf8("\r\n"@) + r.body)))
}

/// How the headers of a written request read.
proof fn request_headers_read_back(r: RequestView)
    requires
        are_sendable(r.headers),
    ensures
        parse::headers_of(request_rest(r)) == Ok::<(Seq<Field>, Seq<u8>), HttpError>(
            (wire_request_fields(r), r.body),
        ),
{
    let fields = serialize::request_fields(r.headers);
    let length = ("Content-Length"@, lex::decimal_text(r.body.len()));
    let close = ("Connection"@, "close"@);
    let tail2 = encode_utf8("\r\n"@) + r.body;
    let tail1 = serialize::header_line(close) + tail2;
    let tail0 = serialize::header_line(length) + tail1;
    length_line_is_a_header(r.body.len());
    connection_line_is_a_header();
    request_fields_are_clean(r.headers);
    headers_read_back(fields, tail0);
    header_reads_back(length, tail1);
    header_reads_back(close, tail2);
    blank_line_ends_the_headers(r.body);
    assert(fields + (seq![length] + (seq![close] + Seq::<Field>::empty()))
        =~= wire_request_fields(r));
}

/// The length that a written request announces.
proof fn request_length_reads_back(r: RequestView)
    requires
        are_sendable(r.headers),
        r.body.len() <= usize::MAX,
    ensures
        parse::announced_len(wire_request_fields(r)) == Some(r.body.len()),
{
    let fields = serialize::request_fields(r.headers);
    let n = r.body.len();
    let length = ("Content-Length"@, lex::decimal_text(n));
    let close = ("Connection"@, "close"@);
    length_line_is_a_header(n);
    request_fields_are_clean(r.headers);
    assert forall|i: int| 0 <= i < fields.len() implies !lex::same_name(
        (#[trigger] fields[i]).0,
        "content-length"@,
    ) by {
        assert(!serialize::owned_in_request(fields[i].0));
    }
    lookup_passes_over(fields, seq![length, close], "content-length"@);
    assert(seq![length, close][0] == length);
    lex::decimal_bytes(n);
    lex::decimal_reads_back(n);
}

/// Concatenation may be grouped from the back.
proof fn grouped_from_the_back(
    a: Seq<u8>,
    b: Seq<u8>,
    c: Seq<u8>,
    d: Seq<u8>,
    e: Seq<u8>,
    f: Seq<u8>,
)
    ensures
        a + b + c + d + e + f == a + (b + (c + (d + (e + f)))),
{
    assert(d + e + f =~= d + (e + f));
    assert(c + d + e + f =~= c + (d + e + f));
    assert(b + c + d + e + f =~= b + (c + d + e + f));
    assert(a + b + c + d + e + f =~= a + (b + c + d + e + f));
}

/// A written request is its request line and the rest.
proof fn request_bytes_split(r: RequestView)
    ensures
        serialize::request_bytes(r) == encode_utf8(r.method) + encode_utf8(" "@) + encode_utf8(
            r.target,
        ) + encode_utf8(" HTTP/1.1\r\n"@) + request_rest(r),
{
    length_line_is_a_header(r.body.len());
    connection_line_is_a_header();
    grouped_from_the_back(
        encode_utf8(r.method) + encode_utf8(" "@) + encode_utf8(r.target) + encode_utf8(
            " HTTP/1.1\r\n"@,
        ),
        serialize::header_lines(serialize::request_fields(r.headers)),
        serialize::header_line(("Content-Length"@, lex::decimal_text(r.body.len()))),
        serialize::header_line(("Connection"@, "close"@)),
        encode_utf8("\r\n"@),
        r.body,
    );
}

/// Writing a request and parsing it gives it back: method, target and body
/// exactly, and the headers with the serializer's own in place.
pub proof fn written_requests_parse_back(r: RequestView)
    requires
        is_word(r.method),
        is_word(r.target),
        are_sendable(r.headers),
        r.body.len() <= usize::MAX,
    ensures
        parse::request_of(serialize::request_bytes(r)) == Ok::<Option<RequestView>, HttpError>(
            Some(RequestView { headers: wire_request_fields(r), ..r }),
        ),
{
    let head = request_rest(r);
    request_headers_read_back(r);
    request_length_reads_back(r);
    request_line_reads_back(r.method, r.target, head);
    request_bytes_split(r);
    assert(r.body.take(r.body.len() as int) =~= r.body);
}

/// How a request line reads.
proof fn request_line_reads_back(method: Seq<char>, target: Seq<char>, head: Seq<u8>)
    requires
        is_word(method),
        is_word(target),
    ensures
        ({
            let b = encode_utf8(method) + encode_utf8(" "@) + encode_utf8(target) + encode_utf8(
                " HTTP/1.1\r\n"@,
            ) + head;
            let n = parse::line_len(b);
            let line = parse::chopped(b.take(n));
            &&& b.len() > 0
            &&& valid_utf8(b.take(n))
            &&& b.skip(n) == head
            &&& parse::first_word(line) == encode_utf8(method)
            &&& parse::first_word(parse::after_first_word(line)) == encode_utf8(target)
            &&& encode_utf8(method).len() > 0
            &&& encode_utf8(target).len() > 0
            &&& decode_utf8(encode_utf8(method)) == method
            &&& decode_utf8(encode_utf8(target)) == target
        }),
{
    reveal_strlit(" ");
    reveal_strlit(" HTTP/1.1\r\n");
    reveal_strlit(" HTTP/1.1");
    reveal_strlit("\r\n");
    let sp = " "@;
    let version = " HTTP/1.1"@;
    assert(" HTTP/1.1\r\n"@ =~= version + "\r\n"@);
    lex::encoding_of_sum(version, "\r\n"@);
    ascii_bytes(sp);
    ascii_bytes(version);
    let m = encode_utf8(method);
    let t = encode_utf8(target);
    let v = encode_utf8(version);
    let text = method + sp + target + version;
    lex::encoding_of_sum(method + sp + target, version);
    lex::encoding_of_sum(method + sp, target);
    lex::encoding_of_sum(method, sp);
    let line = encode_utf8(text);
    assert(encode_utf8(sp) =~= seq![32u8]);
    assert(line =~= m + seq![32u8] + t + v);
    let b = m + encode_utf8(sp) + t + encode_utf8(" HTTP/1.1\r\n"@) + head;
    assert(b =~= line + encode_utf8("\r\n"@) + head);
    assert forall|i: int| 0 <= i < v.len() implies #[trigger] v[i] != 10 by {
        assert(v[i] == version[i] as u8);
    }
    assert forall|i: int| 0 <= i < line.len() implies #[trigger] line[i] != 10 by {
        let j = i - m.len() - 1;
        if i < m.len() {
            assert(line[i] == m[i]);
        } else if 0 <= j < t.len() {
            assert(line[i] == t[j]);
        } else if j >= t.len() {
            assert(line[i] == v[j - t.len()]);
        }
    }
    assert(text.last() == version.last());
    line_reads_back(text, head);
    // the words
    assert forall|i: int| 0 <= i < m.len() implies #[trigger] line[i] != 32 by {
        assert(line[i] == m[i]);
    }
    assert(line[m.len() as int] == 32);
    lex::first_index_at(line, 32u8, m.len() as int);
    assert(line.take(m.len() as int) =~= m);
    let rest = line.skip(m.len() as int + 1);
    assert(rest =~= t + v);
    assert forall|i: int| 0 <= i < t.len() implies #[trigger] rest[i] != 32 by {
        assert(rest[i] == t[i]);
    }
    assert(rest[t.len() as int] == v[0]);
    assert(v[0] == 32);
    lex::first_index_at(rest, 32u8, t.len() as int);
    assert(rest.take(t.len() as int) =~= t);
    encode_utf8_decode_utf8(method);
    encode_utf8_decode_utf8(target);
    encoding_is_not_empty(method);
    encoding_is_not_empty(target);
}

proof fn encoding_is_not_empty(t: Seq<char>)
    requires
        t.len() > 0,
    ensures
        encode_utf8(t).len() > 0,
{
}

/// Writing a response and parsing it gives it back: status and body exactly, and
/// the headers with the serializer's own in place.
pub proof fn written_responses_parse_back(r: ResponseView)
    requires
        are_sendable(r.headers),
        r.body.len() <= usize::MAX,
    ensures
        parse::response_of(serialize::response_bytes(r)) == Ok::<ResponseView, HttpError>(
            ResponseView { headers: wire_response_fields(r), ..r },
        ),
{
    let fields = serialize::response_fields(r.headers);
    let n = r.body.len();
    let length = ("Content-Length"@, lex::decimal_text(n));
    let end = encode_utf8("\r\n"@);
    let tail1 = end + r.body;
    let tail0 = serialize::header_lines(fields) + tail1;
    let head = serialize::header_line(length) + tail0;
    length_line_is_a_header(n);
    response_fields_are_clean(r.headers);
    header_reads_back(length, tail0);
    headers_read_back(fields, tail1);
    blank_line_ends_the_headers(r.body);
    let wire = wire_response_fields(r);
    assert(seq![length] + (fields + Seq::<Field>::empty()) =~= wire);
    assert(parse::headers_of(head) == Ok::<(Seq<Field>, Seq<u8>), HttpError>((wire, r.body)));
    status_line_reads_back(r.status, head);
    let lead = encode_utf8("HTTP/1.1 "@) + lex::decimal(r.status as nat) + encode_utf8(" "@)
        + encode_utf8(serialize::reason_of(r.status)) + end;
    assert(serialize::response_bytes(r) =~= lead + head);
    assert(wire[0] == length);
    lex::decimal_bytes(n);
    lex::decimal_reads_back(n);
    assert(parse::announced_len(wire) == Some(n));
    assert(r.body.take(n as int) =~= r.body);
}

proof fn reason_is_plain(status: u16)
    ensures
        lacks(serialize::reason_of(status), 10),
        serialize::reason_of(status).len() > 0,
        serialize::reason_of(status).last() != '\r',
        serialize::reason_of(status).last() != '\n',
{
    reveal_strlit("OK");
    reveal_strlit("Created");
    reveal_strlit("Bad Request");
    reveal_strlit("Conflict");
    reveal_strlit("Unprocessable Entity");
    reveal_strlit("Too Many Requests");
    reveal_strlit("Internal Server Error");
    reveal_strlit("Bad Gateway");
    reveal_strlit("Status");
    let reason = serialize::reason_of(status);
    ascii_bytes(reason);
    assert forall|i: int| 0 <= i < encode_utf8(reason).len() implies #[trigger] encode_utf8(
        reason,
    )[i] != 10 by {
        assert(encode_utf8(reason)[i] == reason[i] as u8);
    }
}

/// How a status line reads.
proof fn status_line_reads_back(status: u16, head: Seq<u8>)
    ensures
        ({
            let b = encode_utf8("HTTP/1.1 "@) + lex::decimal(status as nat) + encode_utf8(" "@)
                + encode_utf8(serialize::reason_of(status)) + encode_utf8("\r\n"@) + head;
            let n = parse::line_len(b);
            &&& b.len() > 0
            &&& valid_utf8(b.take(n))
            &&& b.skip(n) == head
            &&& parse::status_of(parse::chopped(b.take(n))) == Some(status)
        }),
{
    reveal_strlit("HTTP/1.1 ");
    reveal_strlit(" ");
    let version = "HTTP/1.1 "@;
    let sp = " "@;
    let code = lex::decimal_text(status as nat);
    let reason = serialize::reason_of(status);
    ascii_bytes(version);
    ascii_bytes(sp);
    lex::decimal_bytes(status as nat);
    decimal_is_plain(status as nat);
    lex::decimal_reads_back(status as nat);
    reason_is_plain(status);
    let text = version + code + sp + reason;
    lex::encoding_of_sum(version + code + sp, reason);
    lex::encoding_of_sum(version + code, sp);
    lex::encoding_of_sum(version, code);
    let v = encode_utf8(version);
    let c = encode_utf8(code);
    let p = encode_utf8(reason);
    let line = encode_utf8(text);
    assert(encode_utf8(sp) =~= seq![32u8]);
    assert(line =~= v + c + seq![32u8] + p);
    let b = v + lex::decimal(status as nat) + encode_utf8(sp) + p + encode_utf8("\r\n"@) + head;
    assert(b =~= line + encode_utf8("\r\n"@) + head);
    assert(v.len() == 9);
    assert forall|i: int| 0 <= i < 9 implies #[trigger] v[i] == version[i] as u8 by {}
    assert forall|i: int| 0 <= i < line.len() implies #[trigger] line[i] != 10 by {
        if i < 9 {
            assert(line[i] == v[i]);
        } else if i < 9 + c.len() {
            assert(line[i] == c[i - 9]);
        } else if i > 9 + c.len() {
            assert(line[i] == p[i - 10 - c.len()]);
        }
    }
    assert(text.last() == reason.last());
    line_reads_back(text, head);
    assert forall|i: int| 0 <= i < 8 implies #[trigger] line[i] != 32 by {
        assert(line[i] == v[i]);
    }
    assert(line[8] == v[8]);
    lex::first_index_at(line, 32u8, 8);
    let rest = line.skip(9);
    assert(rest =~= c + seq![32u8] + p);
    assert forall|i: int| 0 <= i < c.len() implies #[trigger] rest[i] != 32 by {
        assert(rest[i] == c[i]);
    }
    assert(rest[c.len() as int] == 32);
    lex::first_index_at(rest, 32u8, c.len() as int);
    assert(rest.take(c.len() as int) =~= c);
}


// ---------------------------------------------------------------------------
// Settled input
// ---------------------------------------------------------------------------

/// A complete line is the same whatever follows it.
proof fn complete_line_is_stable(b: Seq<u8>, more: Seq<u8>)
    requires
        lex::first_index(b, 10u8) < b.len(),
    ensures
        lex::first_index(b + more, 10u8) == lex::first_index(b, 10u8),
        parse::line_len(b + more) == parse::line_len(b),
        0 < parse::line_len(b) <= b.len(),
        (b + more).take(parse::line_len(b)) == b.take(parse::line_len(b)),
        (b + more).skip(parse::line_len(b)) == b.skip(parse::line_len(b)) + more,
{
    lex::first_index_is_first(b, 10u8);
    let n = lex::first_index(b, 10u8);
    assert forall|i: int| 0 <= i < n implies #[trigger] (b + more)[i] != 10 by {
        assert(b[i] != 10);
    }
    lex::first_index_at(b + more, 10u8, n);
    assert((b + more).take(n + 1) =~= b.take(n + 1));
    assert((b + more).skip(n + 1) =~= b.skip(n + 1) + more);
}

/// Headers that have ended are the same whatever follows.
proof fn ended_headers_are_stable(b: Seq<u8>, more: Seq<u8>)
    requires
        parse::headers_have_ended(b),
    ensures
        parse::headers_of(b + more) == (match parse::headers_of(b) {
            Err(e) => Err::<(Seq<Field>, Seq<u8>), HttpError>(e),
            Ok((fields, rest)) => Ok((fields, rest + more)),
        }),
    decreases b.len(),
{
    lex::first_index_is_first(b, 10u8);
    complete_line_is_stable(b, more);
    let n = parse::line_len(b);
    let raw = b.take(n);
    let line = parse::chopped(raw);
    if valid_utf8(raw) && line.len() > 0 && parse::header_of(line) is Some {
        ended_headers_are_stable(b.skip(n), more);
    }
}

/// Once a request has settled, nothing that follows changes what it parses to.
pub proof fn a_settled_request_ignores_what_follows(b: Seq<u8>, more: Seq<u8>)
    requires
        parse::request_is_settled(b),
    ensures
        parse::request_of(b + more) == parse::request_of(b),
{
    complete_line_is_stable(b, more);
    let n = parse::line_len(b);
    let raw = b.take(n);
    let line = parse::chopped(raw);
    let head = b.skip(n);
    if valid_utf8(raw) && parse::first_word(line).len() > 0 && parse::first_word(
        parse::after_first_word(line),
    ).len() > 0 {
        ended_headers_are_stable(head, more);
        if let Ok((headers, rest)) = parse::headers_of(head) {
            let len = match parse::announced_len(headers) {
                Some(n) => n,
                None => 0,
            };
            assert((rest + more).take(len as int) =~= rest.take(len as int));
        }
    }
}

/// Once a response has settled, nothing that follows changes what it parses to.
pub proof fn a_settled_response_ignores_what_follows(b: Seq<u8>, more: Seq<u8>)
    requires
        parse::response_is_settled(b),
    ensures
        parse::response_of(b + more) == parse::response_of(b),
{
    complete_line_is_stable(b, more);
    let n = parse::line_len(b);
    let raw = b.take(n);
    let head = b.skip(n);
    if valid_utf8(raw) && parse::status_of(parse::chopped(raw)) is Some {
        ended_headers_are_stable(head, more);
        if let Ok((headers, rest)) = parse::headers_of(head) {
            let len = parse::announced_len(headers)->Some_0;
            assert((rest + more).take(len as int) =~= rest.take(len as int));
        }
    }
}

} // verus!
