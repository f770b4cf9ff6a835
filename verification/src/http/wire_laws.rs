//! What stands on the wire, and what is made of it: the messages that peers send, in
//! all the forms that they may take, and the messages that are sent to them.

use crate::headers::Field;
use crate::http::field_laws;
use crate::http::laws;
use crate::http::message::{RequestView, ResponseView};
use crate::http::parse;
use crate::http::parse::HttpError;
use crate::http::serialize;
use crate::lex;
use vstd::prelude::*;
use vstd::utf8::*;

verus! {

// ---------------------------------------------------------------------------
// Pieces
// ---------------------------------------------------------------------------

/// The text is made of spaces and tabs.
pub open spec fn is_blank(t: Seq<char>) -> bool {
    forall|i: int| 0 <= i < t.len() ==> #[trigger] t[i] == ' ' || t[i] == '\t'
}

/// The text does not contain `c`.
pub open spec fn has_no(t: Seq<char>, c: char) -> bool {
    forall|i: int| 0 <= i < t.len() ==> #[trigger] t[i] != c
}

/// A character that is no white space, whatever is taken for that.
pub open spec fn is_ink(c: char) -> bool {
    '!' <= c <= '~' || c > '\u{3000}'
}

/// The text neither starts nor ends with white space.
pub open spec fn is_bare(t: Seq<char>) -> bool {
    t.len() > 0 ==> is_ink(t[0]) && is_ink(t.last())
}

/// A line feed, with a carriage return before it or not.
pub open spec fn is_line_end(t: Seq<char>) -> bool {
    t == seq!['\n'] || t == seq!['\r', '\n']
}

/// A header line: a name, a colon, and a value, with blanks around the value.
pub struct Line {
    pub name: Seq<char>,
    pub lead: Seq<char>,
    pub value: Seq<char>,
    pub trail: Seq<char>,
    pub end: Seq<char>,
}

/// The text of a header line.
pub open spec fn line_text(l: Line) -> Seq<char> {
    l.name + seq![':'] + l.lead + l.value + l.trail + l.end
}

/// The line is one that a peer may send: the name has no colon in it, neither part a
/// line feed, and neither starts or ends with white space.
pub open spec fn is_line(l: Line) -> bool {
    &&& has_no(l.name, ':')
    &&& has_no(l.name, '\n')
    &&& is_bare(l.name)
    &&& is_blank(l.lead)
    &&& has_no(l.value, '\n')
    &&& is_bare(l.value)
    &&& is_blank(l.trail)
    &&& is_line_end(l.end)
}

/// The text of header lines.
pub open spec fn lines_text(lines: Seq<Line>) -> Seq<char>
    decreases lines.len(),
{
    if lines.len() == 0 {
        Seq::empty()
    } else {
        line_text(lines[0]) + lines_text(lines.drop_first())
    }
}

/// The headers that lines hold.
pub open spec fn fields_of(lines: Seq<Line>) -> Seq<Field> {
    Seq::new(lines.len(), |i: int| (lines[i].name, lines[i].value))
}

pub open spec fn are_lines(lines: Seq<Line>) -> bool {
    forall|i: int| 0 <= i < lines.len() ==> is_line(#[trigger] lines[i])
}

/// The number that decimal digits denote.
pub open spec fn value_of(digits: Seq<char>) -> nat
    decreases digits.len(),
{
    if digits.len() == 0 {
        0
    } else {
        value_of(digits.drop_last()) * 10 + (digits.last() as nat - '0' as nat) as nat
    }
}

/// The text is the number `n` in decimal digits.
pub open spec fn denotes(t: Seq<char>, n: nat) -> bool {
    &&& t.len() > 0
    &&& forall|i: int| 0 <= i < t.len() ==> '0' <= #[trigger] t[i] <= '9'
    &&& value_of(t) == n
}

/// The headers announce a body of `n` bytes: the first `Content-Length` says so.
pub open spec fn announce(fields: Seq<Field>, n: nat) -> bool {
    exists|i: int| #[trigger]
        field_laws::is_first_called(fields, "content-length"@, i) && denotes(fields[i].1, n)
}

/// The headers announce no body.
pub open spec fn announce_nothing(fields: Seq<Field>) -> bool {
    field_laws::none_is_called(fields, "content-length"@)
}

/// A text without a character that is ASCII is encoded without its byte.
proof fn what_a_text_lacks_its_bytes_lack(t: Seq<char>, c: char)
    requires
        '\0' <= c <= '\u{7f}',
        has_no(t, c),
    ensures
        laws::lacks(t, c as u8),
    decreases t.len(),
{
    if t.len() > 0 {
        let rest = t.drop_first();
        let first = encode_scalar(t[0] as u32);
        assert(encode_utf8(t) =~= first + encode_utf8(rest));
        assert forall|i: int| 0 <= i < rest.len() implies #[trigger] rest[i] != c by {
            assert(rest[i] == t[i + 1]);
        }
        what_a_text_lacks_its_bytes_lack(rest, c);
        let x = t[0] as u32;
        let b = c as u8;
        char_is_scalar(t[0]);
        char_u32_cast(t[0], x);
        assert(t[0] != c);
        assert forall|i: int| 0 <= i < first.len() implies #[trigger] first[i] != b by {
            if x <= 0x7f {
                let one = seq![t[0]];
                is_ascii_chars_encode_utf8(one);
                assert(one.drop_first() =~= Seq::<char>::empty());
                assert(encode_utf8(one.drop_first()) =~= Seq::<u8>::empty());
                assert(encode_utf8(one) =~= first);
                assert(one[0] as u8 == encode_utf8(one)[0]);
            } else {
                bytes_of_a_wide_character(x, i);
            }
        }
        assert forall|i: int| 0 <= i < encode_utf8(t).len() implies #[trigger] encode_utf8(t)[i]
            != b by {
            if i >= first.len() {
                assert(encode_utf8(t)[i] == encode_utf8(rest)[i - first.len()]);
            } else {
                assert(encode_utf8(t)[i] == first[i]);
            }
        }
    }
}

/// The bytes of a character beyond ASCII are beyond ASCII.
proof fn bytes_of_a_wide_character(x: u32, i: int)
    requires
        is_scalar(x),
        x > 0x7f,
        0 <= i < encode_scalar(x).len(),
    ensures
        encode_scalar(x)[i] >= 128,
{
    assert((0x80u8 | ((x & 0x3f) as u8)) >= 128) by (bit_vector);
    assert((0x80u8 | (((x >> 6) & 0x3f) as u8)) >= 128) by (bit_vector);
    assert((0x80u8 | (((x >> 12) & 0x3f) as u8)) >= 128) by (bit_vector);
    assert((0xc0u8 | (((x >> 6) & 0x1f) as u8)) >= 128) by (bit_vector);
    assert((0xe0u8 | (((x >> 12) & 0x0f) as u8)) >= 128) by (bit_vector);
    assert((0xf0u8 | (((x >> 18) & 0x07) as u8)) >= 128) by (bit_vector);
}

proof fn ascii_bytes(t: Seq<char>)
    requires
        is_ascii_chars(t),
    ensures
        encode_utf8(t).len() == t.len(),
        forall|i: int| 0 <= i < t.len() ==> #[trigger] encode_utf8(t)[i] == t[i] as u8,
{
    is_ascii_chars_encode_utf8(t);
    assert forall|i: int| 0 <= i < t.len() implies #[trigger] encode_utf8(t)[i] == t[i] as u8 by {
        assert(t[i] as u8 == encode_utf8(t)[i]);
    }
}

/// How a line is read, whichever way it ends.
proof fn a_line_reads_back(t: Seq<char>, end: Seq<char>, more: Seq<u8>)
    requires
        has_no(t, '\n'),
        is_line_end(end),
        t.len() > 0 ==> t.last() != '\r',
    ensures
        ({
            let b = encode_utf8(t + end) + more;
            let n = parse::line_len(b);
            &&& n == encode_utf8(t + end).len()
            &&& n > 0
            &&& lex::first_index(b, 10u8) < b.len()
            &&& b.take(n) == encode_utf8(t + end)
            &&& valid_utf8(b.take(n))
            &&& parse::chopped(b.take(n)) == encode_utf8(t)
            &&& b.skip(n) == more
        }),
{
    let line = encode_utf8(t);
    let e = encode_utf8(end);
    ascii_bytes(end);
    lex::encoding_of_sum(t, end);
    what_a_text_lacks_its_bytes_lack(t, '\n');
    let raw = line + e;
    let b = raw + more;
    let at = raw.len() - 1;
    assert(e[end.len() - 1] == 10u8);
    assert(end.len() == 2 ==> e[0] == 13u8);
    assert forall|i: int| 0 <= i < at implies #[trigger] b[i] != 10 by {
        if i < line.len() {
            assert(b[i] == line[i]);
        } else {
            assert(b[i] == e[i - line.len()]);
        }
    }
    assert(b[at] == 10);
    lex::first_index_at(b, 10u8, at);
    assert(b.take(at + 1) =~= raw);
    assert(b.skip(at + 1) =~= more);
    encode_utf8_valid_utf8(t + end);
    if t.len() > 0 {
        assert(t.last() != '\n');
        laws::last_byte(t);
    } else {
        assert(line =~= Seq::<u8>::empty());
    }
    assert(parse::chopped(line) == line);
    if end.len() == 2 {
        let cut = line.push(13u8);
        assert(raw.drop_last() =~= cut);
        assert(cut.drop_last() =~= line);
        assert(parse::chopped(cut) == line);
        assert(parse::chopped(raw) == line);
    } else {
        assert(raw.drop_last() =~= line);
        assert(parse::chopped(raw) == line);
    }
}

proof fn a_bare_text_has_no_white_ends(t: Seq<char>)
    requires
        is_bare(t),
    ensures
        t.len() > 0 ==> !lex::is_white(t[0]) && !lex::is_white(t.last()),
{
    if t.len() > 0 {
        char_is_scalar(t[0]);
        char_is_scalar(t.last());
        char_u32_cast(t[0], t[0] as u32);
        char_u32_cast(t.last(), t.last() as u32);
    }
}

/// A header line is read as its name and its value, without the blanks.
proof fn a_header_line_reads_back(l: Line, more: Seq<u8>)
    requires
        is_line(l),
    ensures
        parse::headers_of(encode_utf8(line_text(l)) + more) == (match parse::headers_of(more) {
            Err(e) => Err::<(Seq<Field>, Seq<u8>), HttpError>(e),
            Ok((fields, rest)) => Ok((seq![(l.name, l.value)] + fields, rest)),
        }),
        parse::headers_have_ended(encode_utf8(line_text(l)) + more) == parse::headers_have_ended(
            more,
        ),
{
    let padded = l.lead + l.value + l.trail;
    let t = l.name + seq![':'] + padded;
    assert(line_text(l) =~= t + l.end);
    assert forall|i: int| 0 <= i < t.len() implies #[trigger] t[i] != '\n' by {
        let n = l.name.len();
        if i < n {
            assert(t[i] == l.name[i]);
        } else if n < i <= n + l.lead.len() {
            assert(t[i] == l.lead[i - n - 1]);
        } else if n + l.lead.len() < i <= n + l.lead.len() + l.value.len() {
            assert(t[i] == l.value[i - n - 1 - l.lead.len()]);
        } else if i > n {
            assert(t[i] == l.trail[i - n - 1 - l.lead.len() - l.value.len()]);
        }
    }
    assert(t.last() != '\r') by {
        if l.trail.len() > 0 {
            assert(t.last() == l.trail.last());
            assert(l.trail[l.trail.len() - 1] == ' ' || l.trail[l.trail.len() - 1] == '\t');
        } else if l.value.len() > 0 {
            assert(t.last() == l.value.last());
        } else if l.lead.len() > 0 {
            assert(t.last() == l.lead.last());
            assert(l.lead[l.lead.len() - 1] == ' ' || l.lead[l.lead.len() - 1] == '\t');
        }
    }
    a_line_reads_back(t, l.end, more);
    let b = encode_utf8(line_text(l)) + more;
    let line = encode_utf8(t);
    let name = encode_utf8(l.name);
    let colon = seq![':'];
    ascii_bytes(colon);
    lex::encoding_of_sum(l.name + colon, padded);
    lex::encoding_of_sum(l.name, colon);
    assert(encode_utf8(colon) =~= seq![58u8]);
    assert(line =~= name + seq![58u8] + encode_utf8(padded));
    what_a_text_lacks_its_bytes_lack(l.name, ':');
    assert forall|i: int| 0 <= i < name.len() implies #[trigger] line[i] != 58u8 by {
        assert(line[i] == name[i]);
    }
    assert(line[name.len() as int] == 58u8);
    lex::first_index_at(line, 58u8, name.len() as int);
    assert(line.take(name.len() as int) =~= name);
    assert(line.skip(name.len() as int + 1) =~= encode_utf8(padded));
    encode_utf8_decode_utf8(l.name);
    encode_utf8_decode_utf8(padded);
    a_bare_text_has_no_white_ends(l.name);
    a_bare_text_has_no_white_ends(l.value);
    lex::tidy_text_is_trimmed(l.name);
    assert forall|i: int| 0 <= i < l.lead.len() implies lex::is_white(#[trigger] l.lead[i]) by {}
    assert forall|i: int| 0 <= i < l.trail.len() implies lex::is_white(#[trigger] l.trail[i]) by {}
    lex::white_space_around_is_dropped(l.lead, l.value, l.trail);
    assert(parse::header_of(line) == Some((l.name, l.value)));
    assert(b.len() > 0);
}

/// A blank line ends the headers, and what follows is left.
proof fn a_blank_line_ends_the_headers(end: Seq<char>, body: Seq<u8>)
    requires
        is_line_end(end),
    ensures
        parse::headers_of(encode_utf8(end) + body) == Ok::<(Seq<Field>, Seq<u8>), HttpError>(
            (Seq::<Field>::empty(), body),
        ),
        parse::headers_have_ended(encode_utf8(end) + body),
{
    let none = Seq::<char>::empty();
    a_line_reads_back(none, end, body);
    assert(none + end =~= end);
    assert(encode_utf8(none) =~= Seq::<u8>::empty());
}

/// Header lines with a blank line behind them are read as the headers that they hold, in
/// order, and what follows is left.
proof fn header_lines_read_back(lines: Seq<Line>, end: Seq<char>, body: Seq<u8>)
    requires
        are_lines(lines),
        is_line_end(end),
    ensures
        parse::headers_of(encode_utf8(lines_text(lines) + end) + body) == Ok::<
            (Seq<Field>, Seq<u8>),
            HttpError,
        >((fields_of(lines), body)),
        parse::headers_have_ended(encode_utf8(lines_text(lines) + end) + body),
    decreases lines.len(),
{
    if lines.len() == 0 {
        assert(lines_text(lines) + end =~= end);
        a_blank_line_ends_the_headers(end, body);
        assert(fields_of(lines) =~= Seq::<Field>::empty());
    } else {
        let rest = lines.drop_first();
        assert(is_line(lines[0]));
        assert forall|i: int| 0 <= i < rest.len() implies is_line(#[trigger] rest[i]) by {
            assert(rest[i] == lines[i + 1]);
        }
        header_lines_read_back(rest, end, body);
        let tail = encode_utf8(lines_text(rest) + end) + body;
        a_header_line_reads_back(lines[0], tail);
        assert(lines_text(lines) + end =~= line_text(lines[0]) + (lines_text(rest) + end));
        lex::encoding_of_sum(line_text(lines[0]), lines_text(rest) + end);
        assert(encode_utf8(lines_text(lines) + end) + body =~= encode_utf8(line_text(lines[0]))
            + tail);
        assert(seq![(lines[0].name, lines[0].value)] + fields_of(rest) =~= fields_of(lines));
    }
}

/// Decimal digits are read as the number that they denote.
pub proof fn digits_are_read_as_their_number(t: Seq<char>, n: nat)
    requires
        denotes(t, n),
    ensures
        lex::number_value(encode_utf8(t)) == Some(n),
{
    ascii_bytes(t);
    assert('0' <= t[0] <= '9');
    assert(encode_utf8(t)[0] == t[0] as u8);
    digits_have_their_value(t);
}

proof fn digits_have_their_value(t: Seq<char>)
    requires
        forall|i: int| 0 <= i < t.len() ==> '0' <= #[trigger] t[i] <= '9',
    ensures
        lex::digits_value(encode_utf8(t)) == Some(value_of(t)),
    decreases t.len(),
{
    ascii_bytes(t);
    if t.len() > 0 {
        let init = t.drop_last();
        assert forall|i: int| 0 <= i < init.len() implies '0' <= #[trigger] init[i] <= '9' by {
            assert(init[i] == t[i]);
        }
        ascii_bytes(init);
        digits_have_their_value(init);
        assert(encode_utf8(t).drop_last() =~= encode_utf8(init));
        assert(encode_utf8(t).last() == t.last() as u8);
        assert('0' <= t[t.len() - 1] <= '9');
    } else {
        assert(encode_utf8(t) =~= Seq::<u8>::empty());
    }
}

proof fn a_number_is_made_of_digits(s: Seq<u8>)
    requires
        lex::digits_value(s) is Some,
    ensures
        forall|i: int| 0 <= i < s.len() ==> 48 <= #[trigger] s[i] <= 57,
    decreases s.len(),
{
    if s.len() > 0 {
        a_number_is_made_of_digits(s.drop_last());
        assert forall|i: int| 0 <= i < s.len() implies 48 <= #[trigger] s[i] <= 57 by {
            if i < s.len() - 1 {
                assert(s.drop_last()[i] == s[i]);
            }
        }
    }
}

proof fn digit_bytes_are_digits(t: Seq<char>)
    requires
        t.len() > 0,
        lex::digits_value(encode_utf8(t)) is Some,
    ensures
        denotes(t, lex::digits_value(encode_utf8(t))->Some_0),
{
    let s = encode_utf8(t);
    a_number_is_made_of_digits(s);
    assert forall|i: int| 0 <= i < s.len() implies #[trigger] s[i] < 128 by {
        assert(48 <= s[i] <= 57);
    }
    field_laws::ascii_bytes_are_ascii_text(t);
    ascii_bytes(t);
    assert forall|i: int| 0 <= i < t.len() implies '0' <= #[trigger] t[i] <= '9' by {
        assert(s[i] == t[i] as u8);
        assert('\0' <= t[i] <= '\u{7f}');
        assert(48 <= s[i] <= 57);
    }
    digits_have_their_value(t);
}

/// What is read as a number is that number in decimal digits, with nothing else but a
/// plus sign in front of them.
pub proof fn only_digits_are_read_as_a_number(t: Seq<char>, n: nat)
    requires
        lex::number_value(encode_utf8(t)) == Some(n),
    ensures
        denotes(t, n) || t.len() > 0 && t[0] == '+' && denotes(t.drop_first(), n),
{
    let s = encode_utf8(t);
    if t.len() == 0 {
        assert(s =~= Seq::<u8>::empty());
    }
    let rest = t.drop_first();
    let one = seq![t[0]];
    assert(t =~= one + rest);
    lex::encoding_of_sum(one, rest);
    if s[0] == 43 {
        let plus = seq!['+'];
        ascii_bytes(plus);
        first_byte_is_first_character(t);
        assert(t[0] == '+');
        assert(one =~= plus);
        assert(s.drop_first() =~= encode_utf8(rest));
        if rest.len() == 0 {
            assert(encode_utf8(rest) =~= Seq::<u8>::empty());
        }
        digit_bytes_are_digits(rest);
    } else {
        digit_bytes_are_digits(t);
    }
}

/// A text whose first byte is ASCII starts with that character.
proof fn first_byte_is_first_character(t: Seq<char>)
    requires
        t.len() > 0,
        encode_utf8(t)[0] < 128,
    ensures
        t[0] as u8 == encode_utf8(t)[0],
        '\0' <= t[0] <= '\u{7f}',
{
    let x = t[0] as u32;
    char_is_scalar(t[0]);
    char_u32_cast(t[0], x);
    let first = encode_scalar(x);
    assert(encode_utf8(t) =~= first + encode_utf8(t.drop_first()));
    assert(encode_utf8(t)[0] == first[0]);
    if x > 0x7f {
        bytes_of_a_wide_character(x, 0);
    }
    let one = seq![t[0]];
    is_ascii_chars_encode_utf8(one);
    assert(one.drop_first() =~= Seq::<char>::empty());
    assert(encode_utf8(one.drop_first()) =~= Seq::<u8>::empty());
    assert(encode_utf8(one) =~= first);
    assert(one[0] as u8 == encode_utf8(one)[0]);
}

/// The digits that are written of a number denote it.
pub proof fn written_digits_denote_the_number(n: nat)
    ensures
        denotes(lex::decimal_text(n), n),
{
    lex::decimal_reads_back(n);
    let t = lex::decimal_text(n);
    assert forall|i: int| 0 <= i < t.len() implies '0' <= #[trigger] t[i] <= '9' by {
        let d = lex::decimal(n)[i];
        assert(48 <= d <= 57);
    }
    digits_have_their_value(t);
    lex::decimal_bytes(n);
}

/// What headers announce is what the first `Content-Length` among them says.
proof fn an_announced_length_is_read(fields: Seq<Field>, n: nat)
    requires
        n <= usize::MAX,
    ensures
        announce(fields, n) ==> parse::announced_len(fields) == Some(n),
        announce_nothing(fields) ==> parse::announced_len(fields) is None,
{
    reveal_strlit("content-length");
    field_laws::the_first_header_so_called_is_found(fields, "content-length"@);
    if announce(fields, n) {
        let i = choose|i: int| #[trigger]
            field_laws::is_first_called(fields, "content-length"@, i) && denotes(fields[i].1, n);
        digits_are_read_as_their_number(fields[i].1, n);
    }
}

// ---------------------------------------------------------------------------
// Requests
// ---------------------------------------------------------------------------

/// A method or a target: not empty, without spaces and line ends.
pub open spec fn is_word(t: Seq<char>) -> bool {
    t.len() > 0 && has_no(t, ' ') && has_no(t, '\n') && has_no(t, '\r')
}

/// What may follow the target in a request line: nothing, or a space and what a line can
/// hold, such as the version.
pub open spec fn is_rest_of_line(t: Seq<char>) -> bool {
    &&& t.len() > 0 ==> t[0] == ' '
    &&& has_no(t, '\n')
    &&& has_no(t, '\r')
}

/// The text of the head of a request.
pub open spec fn request_head(
    method: Seq<char>,
    target: Seq<char>,
    version: Seq<char>,
    end: Seq<char>,
    lines: Seq<Line>,
    blank: Seq<char>,
) -> Seq<char> {
    method + seq![' '] + target + version + end + (lines_text(lines) + blank)
}

proof fn a_request_line_reads_back(
    method: Seq<char>,
    target: Seq<char>,
    version: Seq<char>,
    end: Seq<char>,
    more: Seq<u8>,
)
    requires
        is_word(method),
        is_word(target),
        is_rest_of_line(version),
        is_line_end(end),
    ensures
        ({
            let b = encode_utf8(method + seq![' '] + target + version + end) + more;
            let n = parse::line_len(b);
            let line = parse::chopped(b.take(n));
            &&& b.len() > 0
            &&& lex::first_index(b, 10u8) < b.len()
            &&& valid_utf8(b.take(n))
            &&& b.skip(n) == more
            &&& parse::first_word(line) == encode_utf8(method)
            &&& parse::first_word(parse::after_first_word(line)) == encode_utf8(target)
            &&& encode_utf8(method).len() > 0
            &&& encode_utf8(target).len() > 0
        }),
{
    let sp = seq![' '];
    let t = method + sp + target + version;
    assert forall|i: int| 0 <= i < t.len() implies #[trigger] t[i] != '\n' && t[i] != '\r' by {
        let (m, n) = (method.len(), method.len() + 1 + target.len());
        if i < m {
            assert(t[i] == method[i]);
        } else if m < i < n {
            assert(t[i] == target[i - m - 1]);
        } else if i >= n {
            assert(t[i] == version[i - n]);
        }
    }
    assert(t[t.len() - 1] != '\r');
    a_line_reads_back(t, end, more);
    ascii_bytes(sp);
    lex::encoding_of_sum(method + sp + target, version);
    lex::encoding_of_sum(method + sp, target);
    lex::encoding_of_sum(method, sp);
    let (m, g, v) = (encode_utf8(method), encode_utf8(target), encode_utf8(version));
    let line = encode_utf8(t);
    assert(encode_utf8(sp) =~= seq![32u8]);
    assert(line =~= m + seq![32u8] + g + v);
    what_a_text_lacks_its_bytes_lack(method, ' ');
    what_a_text_lacks_its_bytes_lack(target, ' ');
    assert forall|i: int| 0 <= i < m.len() implies #[trigger] line[i] != 32u8 by {
        assert(line[i] == m[i]);
    }
    assert(line[m.len() as int] == 32u8);
    lex::first_index_at(line, 32u8, m.len() as int);
    assert(line.take(m.len() as int) =~= m);
    let rest = line.skip(m.len() as int + 1);
    assert(rest =~= g + v);
    assert forall|i: int| 0 <= i < g.len() implies #[trigger] rest[i] != 32u8 by {
        assert(rest[i] == g[i]);
    }
    if version.len() > 0 {
        assert(version =~= sp + version.drop_first());
        lex::encoding_of_sum(sp, version.drop_first());
        assert(v[0] == 32u8);
        assert(rest[g.len() as int] == 32u8);
    } else {
        assert(v =~= Seq::<u8>::empty());
    }
    lex::first_index_at(rest, 32u8, g.len() as int);
    assert(rest.take(g.len() as int) =~= g);
}

/// What a peer sends is what is parsed. A request line with a method and a target, with
/// or without a version; any number of header lines, with blanks around the values or
/// not; a blank line; lines ended either way; and a body of as many bytes as the first
/// `Content-Length` header announces, or none: the request has exactly that method, that
/// target, those headers in that order, and that body, whatever follows. As soon as all
/// of it is there it is known to be.
pub proof fn a_request_is_parsed_as_it_was_sent(
    method: Seq<char>,
    target: Seq<char>,
    version: Seq<char>,
    end: Seq<char>,
    lines: Seq<Line>,
    blank: Seq<char>,
    body: Seq<u8>,
    more: Seq<u8>,
)
    requires
        is_word(method),
        is_word(target),
        is_rest_of_line(version),
        is_line_end(end),
        are_lines(lines),
        is_line_end(blank),
        body.len() <= usize::MAX,
        announce(fields_of(lines), body.len()) || announce_nothing(fields_of(lines))
            && body.len() == 0,
    ensures
        ({
            let b = encode_utf8(request_head(method, target, version, end, lines, blank)) + body
                + more;
            &&& parse::request_of(b) == Ok::<Option<RequestView>, HttpError>(
                Some(RequestView { method, target, headers: fields_of(lines), body }),
            )
            &&& parse::request_is_settled(b)
        }),
{
    let first = method + seq![' '] + target + version + end;
    let rest = lines_text(lines) + blank;
    let head = encode_utf8(rest) + (body + more);
    let b = encode_utf8(request_head(method, target, version, end, lines, blank)) + body + more;
    lex::encoding_of_sum(first, rest);
    assert(b =~= encode_utf8(first) + head);
    a_request_line_reads_back(method, target, version, end, head);
    header_lines_read_back(lines, blank, body + more);
    an_announced_length_is_read(fields_of(lines), body.len());
    encode_utf8_decode_utf8(method);
    encode_utf8_decode_utf8(target);
    assert((body + more).take(body.len() as int) =~= body);
}

/// A request whose body stops short of what its headers announce is not taken for one: it
/// is in error, and before the end of the connection it is waited for.
pub proof fn a_request_cut_short_is_not_taken_for_one(
    method: Seq<char>,
    target: Seq<char>,
    version: Seq<char>,
    end: Seq<char>,
    lines: Seq<Line>,
    blank: Seq<char>,
    body: Seq<u8>,
    n: nat,
)
    requires
        is_word(method),
        is_word(target),
        is_rest_of_line(version),
        is_line_end(end),
        are_lines(lines),
        is_line_end(blank),
        n <= usize::MAX,
        announce(fields_of(lines), n),
        body.len() < n,
    ensures
        ({
            let b = encode_utf8(request_head(method, target, version, end, lines, blank)) + body;
            &&& parse::request_of(b) == Err::<Option<RequestView>, HttpError>(
                HttpError::UnexpectedEof,
            )
            &&& !parse::request_is_settled(b)
        }),
{
    let first = method + seq![' '] + target + version + end;
    let rest = lines_text(lines) + blank;
    let head = encode_utf8(rest) + body;
    let b = encode_utf8(request_head(method, target, version, end, lines, blank)) + body;
    lex::encoding_of_sum(first, rest);
    assert(b =~= encode_utf8(first) + head);
    a_request_line_reads_back(method, target, version, end, head);
    header_lines_read_back(lines, blank, body);
    an_announced_length_is_read(fields_of(lines), n);
}

/// A line that holds a single word, or nothing, is no request line, whatever follows.
pub proof fn a_request_line_without_a_target_is_malformed(
    word: Seq<char>,
    end: Seq<char>,
    more: Seq<u8>,
)
    requires
        has_no(word, ' '),
        has_no(word, '\n'),
        has_no(word, '\r'),
        is_line_end(end),
    ensures
        parse::request_of(encode_utf8(word + end) + more) == Err::<Option<RequestView>, HttpError>(
            HttpError::MalformedRequestLine,
        ),
{
    if word.len() > 0 {
        assert(word[word.len() - 1] != '\r');
    }
    a_line_reads_back(word, end, more);
    let line = encode_utf8(word);
    what_a_text_lacks_its_bytes_lack(word, ' ');
    lex::first_index_at(line, 32u8, line.len() as int);
    let rest = parse::after_first_word(line);
    assert(rest.len() == 0);
    assert(parse::first_word(rest).len() == 0);
}

/// A header line without a colon is an error, wherever among the headers it stands.
pub proof fn a_header_line_without_a_colon_is_malformed(
    lines: Seq<Line>,
    odd: Seq<char>,
    end: Seq<char>,
    more: Seq<u8>,
)
    requires
        are_lines(lines),
        odd.len() > 0,
        has_no(odd, ':'),
        has_no(odd, '\n'),
        has_no(odd, '\r'),
        is_line_end(end),
    ensures
        parse::headers_of(encode_utf8(lines_text(lines) + (odd + end)) + more) == Err::<
            (Seq<Field>, Seq<u8>),
            HttpError,
        >(HttpError::MalformedHeader),
    decreases lines.len(),
{
    if lines.len() == 0 {
        assert(lines_text(lines) + (odd + end) =~= odd + end);
        assert(odd[odd.len() - 1] != '\r');
        a_line_reads_back(odd, end, more);
        let line = encode_utf8(odd);
        what_a_text_lacks_its_bytes_lack(odd, ':');
        lex::first_index_at(line, 58u8, line.len() as int);
        assert(line.len() > 0);
    } else {
        let rest = lines.drop_first();
        assert(is_line(lines[0]));
        assert forall|i: int| 0 <= i < rest.len() implies is_line(#[trigger] rest[i]) by {
            assert(rest[i] == lines[i + 1]);
        }
        a_header_line_without_a_colon_is_malformed(rest, odd, end, more);
        let tail = encode_utf8(lines_text(rest) + (odd + end)) + more;
        a_header_line_reads_back(lines[0], tail);
        assert(lines_text(lines) + (odd + end) =~= line_text(lines[0]) + (lines_text(rest) + (odd
            + end)));
        lex::encoding_of_sum(line_text(lines[0]), lines_text(rest) + (odd + end));
        assert(encode_utf8(lines_text(lines) + (odd + end)) + more =~= encode_utf8(
            line_text(lines[0]),
        ) + tail);
    }
}

// ---------------------------------------------------------------------------
// Responses
// ---------------------------------------------------------------------------

proof fn a_status_line_reads_back(
    version: Seq<char>,
    code: Seq<char>,
    reason: Seq<char>,
    end: Seq<char>,
    status: u16,
    more: Seq<u8>,
)
    requires
        is_word(version),
        denotes(code, status as nat),
        is_rest_of_line(reason),
        is_line_end(end),
    ensures
        ({
            let b = encode_utf8(version + seq![' '] + code + reason + end) + more;
            let n = parse::line_len(b);
            &&& b.len() > 0
            &&& lex::first_index(b, 10u8) < b.len()
            &&& valid_utf8(b.take(n))
            &&& b.skip(n) == more
            &&& parse::status_of(parse::chopped(b.take(n))) == Some(status)
        }),
{
    assert forall|i: int| 0 <= i < code.len() implies #[trigger] code[i] != ' ' && code[i] != '\n'
        && code[i] != '\r' by {
        assert('0' <= code[i] <= '9');
    }
    assert(is_word(code));
    a_request_line_reads_back(version, code, reason, end, more);
    digits_are_read_as_their_number(code, status as nat);
}

/// The text of the head of a response.
pub open spec fn response_head(
    version: Seq<char>,
    code: Seq<char>,
    reason: Seq<char>,
    end: Seq<char>,
    lines: Seq<Line>,
    blank: Seq<char>,
) -> Seq<char> {
    version + seq![' '] + code + reason + end + (lines_text(lines) + blank)
}

/// What the backend sends is what is parsed: the status that the status line gives, the
/// headers in their order, and a body of as many bytes as the first `Content-Length`
/// header announces, whatever follows; or, where none does, all that there is.
pub proof fn a_response_is_parsed_as_it_was_sent(
    version: Seq<char>,
    code: Seq<char>,
    reason: Seq<char>,
    end: Seq<char>,
    status: u16,
    lines: Seq<Line>,
    blank: Seq<char>,
    body: Seq<u8>,
    more: Seq<u8>,
)
    requires
        is_word(version),
        denotes(code, status as nat),
        is_rest_of_line(reason),
        is_line_end(end),
        are_lines(lines),
        is_line_end(blank),
        body.len() <= usize::MAX,
        announce(fields_of(lines), body.len()) || announce_nothing(fields_of(lines))
            && more.len() == 0,
    ensures
        ({
            let b = encode_utf8(response_head(version, code, reason, end, lines, blank)) + body
                + more;
            &&& parse::response_of(b) == Ok::<ResponseView, HttpError>(
                ResponseView { status, headers: fields_of(lines), body },
            )
            &&& parse::response_is_settled(b) == announce(fields_of(lines), body.len())
        }),
{
    let first = version + seq![' '] + code + reason + end;
    let rest = lines_text(lines) + blank;
    let head = encode_utf8(rest) + (body + more);
    let b = encode_utf8(response_head(version, code, reason, end, lines, blank)) + body + more;
    lex::encoding_of_sum(first, rest);
    assert(b =~= encode_utf8(first) + head);
    a_status_line_reads_back(version, code, reason, end, status, head);
    header_lines_read_back(lines, blank, body + more);
    an_announced_length_is_read(fields_of(lines), body.len());
    assert((body + more).take(body.len() as int) =~= body);
    if announce_nothing(fields_of(lines)) {
        assert(body + more =~= body);
        if announce(fields_of(lines), body.len()) {
            let i = choose|i: int| #[trigger]
                field_laws::is_first_called(fields_of(lines), "content-length"@, i);
            assert(!field_laws::is_called(fields_of(lines)[i].0, "content-length"@));
        }
    }
}

/// A response whose body stops short of what its headers announce is an error.
pub proof fn a_response_cut_short_is_not_taken_for_one(
    version: Seq<char>,
    code: Seq<char>,
    reason: Seq<char>,
    end: Seq<char>,
    status: u16,
    lines: Seq<Line>,
    blank: Seq<char>,
    body: Seq<u8>,
    n: nat,
)
    requires
        is_word(version),
        denotes(code, status as nat),
        is_rest_of_line(reason),
        is_line_end(end),
        are_lines(lines),
        is_line_end(blank),
        n <= usize::MAX,
        announce(fields_of(lines), n),
        body.len() < n,
    ensures
        ({
            let b = encode_utf8(response_head(version, code, reason, end, lines, blank)) + body;
            &&& parse::response_of(b) == Err::<ResponseView, HttpError>(HttpError::UnexpectedEof)
            &&& !parse::response_is_settled(b)
        }),
{
    let first = version + seq![' '] + code + reason + end;
    let rest = lines_text(lines) + blank;
    let head = encode_utf8(rest) + body;
    let b = encode_utf8(response_head(version, code, reason, end, lines, blank)) + body;
    lex::encoding_of_sum(first, rest);
    assert(b =~= encode_utf8(first) + head);
    a_status_line_reads_back(version, code, reason, end, status, head);
    header_lines_read_back(lines, blank, body);
    an_announced_length_is_read(fields_of(lines), n);
}

// ---------------------------------------------------------------------------
// What is sent
// ---------------------------------------------------------------------------

/// Whether a header is none that the serializer of requests sets itself.
pub open spec fn is_kept_in_request(f: Field) -> bool {
    !field_laws::is_called(f.0, "content-length"@) && !field_laws::is_called(f.0, "connection"@)
}

/// Whether a header is none that the serializer of responses sets itself.
pub open spec fn is_kept_in_response(f: Field) -> bool {
    !field_laws::is_called(f.0, "content-length"@)
}

proof fn names_are_ascii()
    ensures
        is_ascii_chars("content-length"@),
        is_ascii_chars("connection"@),
{
    reveal_strlit("content-length");
    reveal_strlit("connection");
}

/// A request is sent with all of its headers, in their order, but for those that the
/// serializer sets itself.
pub proof fn all_other_request_headers_are_sent(fields: Seq<Field>)
    ensures
        serialize::request_fields(fields) == fields.filter(|f: Field| is_kept_in_request(f)),
    decreases fields.len(),
{
    reveal(Seq::filter);
    names_are_ascii();
    if fields.len() > 0 {
        all_other_request_headers_are_sent(fields.drop_last());
        field_laws::a_name_is_matched_letter_by_letter(fields.last().0, "content-length"@);
        field_laws::a_name_is_matched_letter_by_letter(fields.last().0, "connection"@);
    } else {
        assert(fields =~= Seq::empty());
    }
}

/// A response is sent with all of its headers, in their order, but for the length, which
/// the serializer sets itself.
pub proof fn all_other_response_headers_are_sent(fields: Seq<Field>)
    ensures
        serialize::response_fields(fields) == fields.filter(|f: Field| is_kept_in_response(f)),
    decreases fields.len(),
{
    reveal(Seq::filter);
    names_are_ascii();
    if fields.len() > 0 {
        all_other_response_headers_are_sent(fields.drop_last());
        field_laws::a_name_is_matched_letter_by_letter(fields.last().0, "content-length"@);
    } else {
        assert(fields =~= Seq::empty());
    }
}

/// A header as it is sent.
pub open spec fn line_for(f: Field) -> Line {
    Line {
        name: f.0,
        lead: seq![' '],
        value: f.1,
        trail: Seq::empty(),
        end: seq!['\r', '\n'],
    }
}

/// Headers as they are sent.
pub open spec fn lines_for(fields: Seq<Field>) -> Seq<Line> {
    Seq::new(fields.len(), |i: int| line_for(fields[i]))
}

proof fn a_header_is_sent_as_a_line(f: Field)
    ensures
        serialize::header_line(f) == encode_utf8(line_text(line_for(f))),
{
    reveal_strlit(": ");
    reveal_strlit("\r\n");
    assert("\r\n"@ =~= seq!['\r', '\n']);
    assert(": "@ =~= seq![':', ' ']);
    lex::encoding_of_sum(f.0 + ": "@ + f.1, "\r\n"@);
    lex::encoding_of_sum(f.0 + ": "@, f.1);
    lex::encoding_of_sum(f.0, ": "@);
    assert(line_text(line_for(f)) =~= f.0 + ": "@ + f.1 + "\r\n"@);
}

/// The text of lines grows at the end.
proof fn one_line_more(lines: Seq<Line>, l: Line)
    ensures
        lines_text(lines.push(l)) == lines_text(lines) + line_text(l),
    decreases lines.len(),
{
    if lines.len() == 0 {
        assert(lines.push(l).drop_first() =~= Seq::<Line>::empty());
        assert(lines_text(lines.push(l).drop_first()) =~= Seq::<char>::empty());
        assert(lines_text(lines.push(l)) =~= lines_text(lines) + line_text(l));
    } else {
        one_line_more(lines.drop_first(), l);
        assert(lines.push(l).drop_first() =~= lines.drop_first().push(l));
        assert(lines_text(lines.push(l)) =~= lines_text(lines) + line_text(l));
    }
}

proof fn headers_are_sent_as_lines(fields: Seq<Field>)
    ensures
        serialize::header_lines(fields) == encode_utf8(lines_text(lines_for(fields))),
    decreases fields.len(),
{
    if fields.len() == 0 {
        assert(lines_text(lines_for(fields)) =~= Seq::<char>::empty());
        assert(serialize::header_lines(fields) =~= encode_utf8(lines_text(lines_for(fields))));
    } else {
        let init = fields.drop_last();
        headers_are_sent_as_lines(init);
        a_header_is_sent_as_a_line(fields.last());
        one_line_more(lines_for(init), line_for(fields.last()));
        assert(lines_for(fields) =~= lines_for(init).push(line_for(fields.last())));
        lex::encoding_of_sum(lines_text(lines_for(init)), line_text(line_for(fields.last())));
    }
}

/// The headers that a request is sent with: its own but for two, then the length of its
/// body, and that the connection ends with it.
pub open spec fn sent_with_request(fields: Seq<Field>, digits: Seq<char>) -> Seq<Field> {
    fields.filter(|f: Field| is_kept_in_request(f)).push(("Content-Length"@, digits)).push(
        ("Connection"@, "close"@),
    )
}

/// The headers that a response is sent with: the length of its body, then its own.
pub open spec fn sent_with_response(fields: Seq<Field>, digits: Seq<char>) -> Seq<Field> {
    seq![("Content-Length"@, digits)] + fields.filter(|f: Field| is_kept_in_response(f))
}

proof fn the_length_is_sent_as_a_line(n: nat)
    ensures
        serialize::length_line(n) == encode_utf8(
            line_text(line_for(("Content-Length"@, lex::decimal_text(n)))),
        ),
        encode_utf8("Connection: close\r\n"@) == encode_utf8(
            line_text(line_for(("Connection"@, "close"@))),
        ),
{
    reveal_strlit("Content-Length: ");
    reveal_strlit("Content-Length");
    reveal_strlit("\r\n");
    reveal_strlit("Connection: close\r\n");
    reveal_strlit("Connection");
    reveal_strlit("close");
    let digits = lex::decimal_text(n);
    let f = ("Content-Length"@, digits);
    lex::decimal_bytes(n);
    assert("\r\n"@ =~= seq!['\r', '\n']);
    assert("Content-Length: "@ =~= "Content-Length"@ + seq![':', ' ']);
    lex::encoding_of_sum("Content-Length: "@ + digits, "\r\n"@);
    lex::encoding_of_sum("Content-Length: "@, digits);
    assert(line_text(line_for(f)) =~= "Content-Length: "@ + digits + "\r\n"@);
    assert(line_text(line_for(("Connection"@, "close"@))) =~= "Connection: close\r\n"@);
}

/// A request is sent as one: request line, headers, blank line, and all of the body, with
/// its length in decimal digits.
pub proof fn a_request_is_sent_whole(r: RequestView)
    ensures
        exists|digits: Seq<char>| #[trigger]
            denotes(digits, r.body.len()) && serialize::request_bytes(r) == encode_utf8(
                request_head(
                    r.method,
                    r.target,
                    " HTTP/1.1"@,
                    seq!['\r', '\n'],
                    lines_for(sent_with_request(r.headers, digits)),
                    seq!['\r', '\n'],
                ),
            ) + r.body,
{
    let digits = lex::decimal_text(r.body.len());
    let own = r.headers.filter(|f: Field| is_kept_in_request(f));
    let length = ("Content-Length"@, digits);
    let close = ("Connection"@, "close"@);
    let all = sent_with_request(r.headers, digits);
    written_digits_denote_the_number(r.body.len());
    all_other_request_headers_are_sent(r.headers);
    headers_are_sent_as_lines(own);
    the_length_is_sent_as_a_line(r.body.len());
    one_line_more(lines_for(own), line_for(length));
    one_line_more(lines_for(own).push(line_for(length)), line_for(close));
    assert(lines_for(all) =~= lines_for(own).push(line_for(length)).push(line_for(close)));
    let t = lines_text(lines_for(own));
    lex::encoding_of_sum(t, line_text(line_for(length)));
    lex::encoding_of_sum(t + line_text(line_for(length)), line_text(line_for(close)));
    reveal_strlit(" HTTP/1.1\r\n");
    reveal_strlit(" HTTP/1.1");
    reveal_strlit(" ");
    reveal_strlit("\r\n");
    let crlf = seq!['\r', '\n'];
    assert("\r\n"@ =~= crlf);
    assert(" "@ =~= seq![' ']);
    assert(" HTTP/1.1\r\n"@ =~= " HTTP/1.1"@ + crlf);
    let line = r.method + seq![' '] + r.target + (" HTTP/1.1"@ + crlf);
    lex::encoding_of_sum(r.method + seq![' '] + r.target, " HTTP/1.1"@ + crlf);
    lex::encoding_of_sum(r.method + seq![' '], r.target);
    lex::encoding_of_sum(r.method, seq![' ']);
    let lines = lines_text(lines_for(all));
    lex::encoding_of_sum(lines, crlf);
    lex::encoding_of_sum(line, lines + crlf);
    assert(request_head(r.method, r.target, " HTTP/1.1"@, crlf, lines_for(all), crlf) =~= line + (
    lines + crlf));
    assert(serialize::request_bytes(r) =~= encode_utf8(line) + (encode_utf8(lines) + encode_utf8(
        crlf,
    )) + r.body);
}

/// A response is sent as one: a status line with the status in decimal digits and a
/// reason, headers, blank line, and all of the body, with its length in decimal digits.
pub proof fn a_response_is_sent_whole(r: ResponseView)
    ensures
        exists|code: Seq<char>, digits: Seq<char>, reason: Seq<char>|
            #![trigger denotes(code, r.status as nat), denotes(digits, r.body.len()), is_rest_of_line(reason)]
            denotes(code, r.status as nat) && denotes(digits, r.body.len()) && is_rest_of_line(
                reason,
            ) && serialize::response_bytes(r) == encode_utf8(
                response_head(
                    "HTTP/1.1"@,
                    code,
                    reason,
                    seq!['\r', '\n'],
                    lines_for(sent_with_response(r.headers, digits)),
                    seq!['\r', '\n'],
                ),
            ) + r.body,
{
    let code = lex::decimal_text(r.status as nat);
    let digits = lex::decimal_text(r.body.len());
    let phrase = serialize::reason_of(r.status);
    let reason = seq![' '] + phrase;
    let crlf = seq!['\r', '\n'];
    let own = r.headers.filter(|f: Field| is_kept_in_response(f));
    let length = ("Content-Length"@, digits);
    let all = sent_with_response(r.headers, digits);
    written_digits_denote_the_number(r.status as nat);
    written_digits_denote_the_number(r.body.len());
    lex::decimal_bytes(r.status as nat);
    all_other_response_headers_are_sent(r.headers);
    headers_are_sent_as_lines(own);
    the_length_is_sent_as_a_line(r.body.len());
    assert(lines_for(all)[0] == line_for(length));
    assert(lines_for(all).drop_first() =~= lines_for(own));
    lex::encoding_of_sum(line_text(line_for(length)), lines_text(lines_for(own)));
    a_reason_is_the_rest_of_a_line(r.status);
    reveal_strlit("HTTP/1.1 ");
    reveal_strlit("HTTP/1.1");
    reveal_strlit(" ");
    reveal_strlit("\r\n");
    assert("\r\n"@ =~= crlf);
    assert(" "@ =~= seq![' ']);
    assert("HTTP/1.1 "@ =~= "HTTP/1.1"@ + seq![' ']);
    let line = "HTTP/1.1 "@ + code + reason + crlf;
    lex::encoding_of_sum("HTTP/1.1 "@ + code + reason, crlf);
    lex::encoding_of_sum("HTTP/1.1 "@ + code, reason);
    lex::encoding_of_sum("HTTP/1.1 "@, code);
    lex::encoding_of_sum(seq![' '], phrase);
    let lines = lines_text(lines_for(all));
    lex::encoding_of_sum(lines, crlf);
    lex::encoding_of_sum(line, lines + crlf);
    assert(response_head("HTTP/1.1"@, code, reason, crlf, lines_for(all), crlf) =~= line + (lines
        + crlf));
    assert(serialize::response_bytes(r) =~= encode_utf8(line) + (encode_utf8(lines) + encode_utf8(
        crlf,
    )) + r.body);
}

proof fn a_reason_is_the_rest_of_a_line(status: u16)
    ensures
        is_rest_of_line(seq![' '] + serialize::reason_of(status)),
{
    reveal_strlit("OK");
    reveal_strlit("Created");
    reveal_strlit("Bad Request");
    reveal_strlit("Conflict");
    reveal_strlit("Unprocessable Entity");
    reveal_strlit("Too Many Requests");
    reveal_strlit("Internal Server Error");
    reveal_strlit("Bad Gateway");
    reveal_strlit("Status");
}

/// The line that a response starts with names the version, the status in digits and a
/// reason, and the statuses that the gateway gives have the reasons that HTTP gives them.
pub proof fn a_status_is_sent_with_its_reason(r: ResponseView)
    ensures
        encode_utf8("HTTP/1.1 "@ + lex::decimal_text(r.status as nat) + " "@).is_prefix_of(
            serialize::response_bytes(r),
        ),
        serialize::reason_of(200) == "OK"@,
        serialize::reason_of(201) == "Created"@,
        serialize::reason_of(400) == "Bad Request"@,
        serialize::reason_of(409) == "Conflict"@,
        serialize::reason_of(422) == "Unprocessable Entity"@,
        serialize::reason_of(429) == "Too Many Requests"@,
        serialize::reason_of(500) == "Internal Server Error"@,
        serialize::reason_of(502) == "Bad Gateway"@,
{
    let (version, code) = ("HTTP/1.1 "@, lex::decimal_text(r.status as nat));
    lex::decimal_bytes(r.status as nat);
    lex::encoding_of_sum(version, code);
    lex::encoding_of_sum(version + code, " "@);
    let head = encode_utf8(version + code + " "@);
    assert(head == encode_utf8(version) + lex::decimal(r.status as nat) + encode_utf8(" "@));
    assert(serialize::response_bytes(r).take(head.len() as int) =~= head);
}

} // verus!
