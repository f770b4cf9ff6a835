//! Lexical helpers for text protocols: searching, trimming, case-insensitive
//! names and decimal numbers.

use crate::bytes::put_raw;
use crate::text::{copy_bytes, string_from_utf8};
use vstd::prelude::*;
use vstd::slice::slice_subrange;
use vstd::utf8::*;

verus! {

// ---------------------------------------------------------------------------
// Searching
// ---------------------------------------------------------------------------

/// The first position of `x` in `s`, or its length where `x` does not occur.
pub open spec fn first_index<T>(s: Seq<T>, x: T) -> int
    decreases s.len(),
{
    if s.len() == 0 || s[0] == x {
        0
    } else {
        1 + first_index(s.drop_first(), x)
    }
}

/// What `first_index` finds.
pub proof fn first_index_is_first<T>(s: Seq<T>, x: T)
    ensures
        0 <= first_index(s, x) <= s.len(),
        first_index(s, x) < s.len() ==> s[first_index(s, x)] == x,
        forall|i: int| 0 <= i < first_index(s, x) ==> #[trigger] s[i] != x,
    decreases s.len(),
{
    if s.len() > 0 && s[0] != x {
        let rest = s.drop_first();
        first_index_is_first(rest, x);
        assert forall|i: int| 0 <= i < first_index(s, x) implies #[trigger] s[i] != x by {
            if i > 0 {
                assert(rest[i - 1] == s[i]);
            }
        }
    }
}

/// A position that holds `x`, with no `x` before it, is the first.
pub proof fn first_index_at<T>(s: Seq<T>, x: T, n: int)
    requires
        0 <= n <= s.len(),
        n < s.len() ==> s[n] == x,
        forall|i: int| 0 <= i < n ==> #[trigger] s[i] != x,
    ensures
        first_index(s, x) == n,
    decreases s.len(),
{
    if n > 0 {
        let rest = s.drop_first();
        assert(s[0] != x);
        assert forall|i: int| 0 <= i < n - 1 implies #[trigger] rest[i] != x by {
            assert(rest[i] == s[i + 1]);
        }
        first_index_at(rest, x, n - 1);
    }
}

/// The first position of `x` in `b`, or its length.
pub fn find_byte(b: &[u8], x: u8) -> (n: usize)
    ensures
        n == first_index(b@, x),
        n <= b@.len(),
{
    let mut n: usize = 0;
    while n < b.len() && b[n] != x
        invariant
            n <= b.len(),
            forall|i: int| 0 <= i < n ==> #[trigger] b@[i] != x,
        decreases b.len() - n,
    {
        n = n + 1;
    }
    proof {
        first_index_at(b@, x, n as int);
    }
    n
}

// ---------------------------------------------------------------------------
// Splitting encoded text
// ---------------------------------------------------------------------------

/// Valid text cut before an ASCII byte, or at its end, is two valid texts.
pub proof fn cut_at_ascii(b: Seq<u8>, n: int)
    requires
        valid_utf8(b),
        0 <= n <= b.len(),
        n < b.len() ==> b[n] < 128,
    ensures
        valid_utf8(b.take(n)),
        valid_utf8(b.skip(n)),
        decode_utf8(b) == decode_utf8(b.take(n)) + decode_utf8(b.skip(n)),
{
    is_char_boundary_start_end_of_seq(b);
    if n < b.len() {
        is_char_boundary_iff_not_is_continuation_byte(b, n);
        let x = b[n];
        assert(x < 128 ==> !(0x80 <= x && x <= 0xbf)) by (bit_vector);
        utf8_byte_ranges_bitwise(x);
        assert(!is_continuation_byte(x));
    }
    valid_utf8_split(b, n);
    decode_utf8_split(b, n);
    assert(b.take(n) =~= b.subrange(0, n));
    assert(b.skip(n) =~= b.subrange(n, b.len() as int));
}

/// Valid text cut after an ASCII byte is two valid texts.
pub proof fn cut_after_ascii(b: Seq<u8>, n: int)
    requires
        valid_utf8(b),
        0 <= n < b.len(),
        b[n] < 128,
    ensures
        valid_utf8(b.take(n)),
        valid_utf8(b.skip(n + 1)),
{
    cut_at_ascii(b, n);
    let tail = b.skip(n);
    assert(tail[0] == b[n]);
    // the first scalar of the tail is that one byte
    let x = b[n];
    assert(x < 128 ==> x & 0x80 == 0) by (bit_vector);
    utf8_byte_ranges_bitwise(x);
    assert(is_leading_byte_width_1(x));
    assert(length_of_first_scalar(tail) == 1);
    assert(pop_first_scalar(tail) =~= b.skip(n + 1));
}

// ---------------------------------------------------------------------------
// Trimming
// ---------------------------------------------------------------------------

/// Whether a character has the Unicode property White_Space.
pub open spec fn is_white(c: char) -> bool {
    let x = c as u32;
    ||| 0x9 <= x <= 0xd
    ||| x == 0x20
    ||| x == 0x85
    ||| x == 0xa0
    ||| x == 0x1680
    ||| 0x2000 <= x <= 0x200a
    ||| x == 0x2028
    ||| x == 0x2029
    ||| x == 0x202f
    ||| x == 0x205f
    ||| x == 0x3000
}

/// `t` without leading white space.
pub open spec fn trimmed_start(t: Seq<char>) -> Seq<char>
    decreases t.len(),
{
    if t.len() > 0 && is_white(t[0]) {
        trimmed_start(t.drop_first())
    } else {
        t
    }
}

/// `t` without trailing white space.
pub open spec fn trimmed_end(t: Seq<char>) -> Seq<char>
    decreases t.len(),
{
    if t.len() > 0 && is_white(t.last()) {
        trimmed_end(t.drop_last())
    } else {
        t
    }
}

/// `t` without leading and trailing white space.
pub open spec fn trimmed(t: Seq<char>) -> Seq<char> {
    trimmed_end(trimmed_start(t))
}

/// How the trimmed part lies in the text: between `from` and `to` it starts and
/// ends with something that is not white, and all around it is white.
proof fn trimmed_is_the_middle(t: Seq<char>, from: int, to: int)
    requires
        0 <= from <= to <= t.len(),
        forall|i: int| 0 <= i < from ==> is_white(#[trigger] t[i]),
        forall|i: int| to <= i < t.len() ==> is_white(#[trigger] t[i]),
        from < to ==> !is_white(t[from]) && !is_white(t[to - 1]),
        from == to ==> from == t.len(),
    ensures
        trimmed(t) == t.subrange(from, to),
{
    start_is_dropped(t, from);
    let rest = t.skip(from);
    assert forall|i: int| to - from <= i < rest.len() implies is_white(#[trigger] rest[i]) by {
        assert(rest[i] == t[from + i]);
    }
    end_is_dropped(rest, to - from);
    assert(rest.take(to - from) =~= t.subrange(from, to));
}

proof fn start_is_dropped(t: Seq<char>, from: int)
    requires
        0 <= from <= t.len(),
        forall|i: int| 0 <= i < from ==> is_white(#[trigger] t[i]),
        from < t.len() ==> !is_white(t[from]),
    ensures
        trimmed_start(t) == t.skip(from),
    decreases t.len(),
{
    if from == 0 {
        assert(t.skip(0) =~= t);
    } else {
        assert(is_white(t[0]));
        let rest = t.drop_first();
        assert forall|i: int| 0 <= i < from - 1 implies is_white(#[trigger] rest[i]) by {
            assert(rest[i] == t[i + 1]);
        }
        start_is_dropped(rest, from - 1);
        assert(rest.skip(from - 1) =~= t.skip(from));
    }
}

proof fn end_is_dropped(t: Seq<char>, to: int)
    requires
        0 <= to <= t.len(),
        forall|i: int| to <= i < t.len() ==> is_white(#[trigger] t[i]),
        to > 0 ==> !is_white(t[to - 1]),
    ensures
        trimmed_end(t) == t.take(to),
    decreases t.len(),
{
    if to == t.len() {
        assert(t.take(to) =~= t);
    } else {
        assert(is_white(t[t.len() - 1]));
        let rest = t.drop_last();
        assert forall|i: int| to <= i < rest.len() implies is_white(#[trigger] rest[i]) by {
            assert(rest[i] == t[i]);
        }
        end_is_dropped(rest, to);
        assert(rest.take(to) =~= t.take(to));
    }
}

/// A text that neither starts nor ends with white space is trimmed.
pub proof fn tidy_text_is_trimmed(t: Seq<char>)
    requires
        t.len() > 0 ==> !is_white(t[0]) && !is_white(t.last()),
    ensures
        trimmed(t) == t,
{
    if t.len() > 0 {
        trimmed_is_the_middle(t, 0, t.len() as int);
        assert(t.subrange(0, t.len() as int) =~= t);
    }
}

/// White space around a text that has none at its ends is dropped, and nothing else.
pub proof fn white_space_around_is_dropped(lead: Seq<char>, t: Seq<char>, trail: Seq<char>)
    requires
        forall|i: int| 0 <= i < lead.len() ==> is_white(#[trigger] lead[i]),
        forall|i: int| 0 <= i < trail.len() ==> is_white(#[trigger] trail[i]),
        t.len() > 0 ==> !is_white(t[0]) && !is_white(t.last()),
    ensures
        trimmed(lead + t + trail) == t,
{
    let whole = lead + t + trail;
    let (from, to) = if t.len() > 0 {
        (lead.len() as int, (lead.len() + t.len()) as int)
    } else {
        (whole.len() as int, whole.len() as int)
    };
    assert forall|i: int| 0 <= i < from implies is_white(#[trigger] whole[i]) by {
        if i < lead.len() {
            assert(whole[i] == lead[i]);
        } else {
            assert(whole[i] == trail[i - lead.len() - t.len()]);
        }
    }
    assert forall|i: int| to <= i < whole.len() implies is_white(#[trigger] whole[i]) by {
        assert(whole[i] == trail[i - lead.len() - t.len()]);
    }
    trimmed_is_the_middle(whole, from, to);
    assert(whole.subrange(from, to) =~= t);
}

/// White space in front is dropped.
pub proof fn leading_space_is_dropped(t: Seq<char>)
    requires
        trimmed(t) == t,
    ensures
        trimmed(seq![' '] + t) == t,
{
    let s = seq![' '] + t;
    assert(is_white(' '));
    assert(s.drop_first() =~= t);
    assert(trimmed_start(s) == trimmed_start(t));
}

fn is_whitespace(c: char) -> (r: bool)
    ensures
        r == is_white(c),
{
    let x: u32 = c as u32;
    (0x9 <= x && x <= 0xd) || x == 0x20 || x == 0x85 || x == 0xa0 || x == 0x1680 || (0x2000 <= x
        && x <= 0x200a) || x == 0x2028 || x == 0x2029 || x == 0x202f || x == 0x205f || x == 0x3000
}

fn encoded_len(c: char) -> (n: usize)
    ensures
        n == encode_scalar(c as u32).len(),
        1 <= n <= 4,
{
    let x: u32 = c as u32;
    if x <= 0x7f {
        1
    } else if x <= 0x7ff {
        2
    } else if x <= 0xffff {
        3
    } else {
        4
    }
}

/// The encoding of two texts in a row.
pub proof fn encoding_of_sum(a: Seq<char>, b: Seq<char>)
    ensures
        encode_utf8(a + b) == encode_utf8(a) + encode_utf8(b),
    decreases a.len(),
{
    if a.len() == 0 {
        assert(a + b =~= b);
        assert(encode_utf8(a) + encode_utf8(b) =~= encode_utf8(b));
    } else {
        encoding_of_sum(a.drop_first(), b);
        assert((a + b).drop_first() =~= a.drop_first() + b);
        assert(encode_utf8(a + b) =~= encode_utf8(a) + encode_utf8(b));
    }
}

/// The encoding grows by that of the next character.
proof fn encoding_grows(t: Seq<char>, n: int)
    requires
        0 <= n < t.len(),
    ensures
        encode_utf8(t.take(n + 1)) == encode_utf8(t.take(n)) + encode_scalar(t[n] as u32),
{
    assert(t.take(n + 1) =~= t.take(n) + seq![t[n]]);
    encoding_of_sum(t.take(n), seq![t[n]]);
    let one = seq![t[n]];
    assert(one.drop_first() =~= Seq::<char>::empty());
    assert(encode_utf8(one.drop_first()) =~= Seq::<u8>::empty());
    assert(encode_utf8(one) =~= encode_scalar(t[n] as u32));
}

/// The part of a text between two characters, cut out of its encoding.
proof fn encoded_middle(t: Seq<char>, from: int, to: int)
    requires
        0 <= from <= to <= t.len(),
    ensures
        encode_utf8(t.take(from)).len() <= encode_utf8(t.take(to)).len() <= encode_utf8(t).len(),
        encode_utf8(t).subrange(
            encode_utf8(t.take(from)).len() as int,
            encode_utf8(t.take(to)).len() as int,
        ) == encode_utf8(t.subrange(from, to)),
{
    let a = t.take(from);
    let m = t.subrange(from, to);
    let z = t.skip(to);
    assert(t.take(to) =~= a + m);
    assert(t =~= a + m + z);
    encoding_of_sum(a, m);
    encoding_of_sum(a + m, z);
    assert(encode_utf8(t).subrange(
        encode_utf8(a).len() as int,
        encode_utf8(a + m).len() as int,
    ) =~= encode_utf8(m));
}

/// `s` without leading and trailing white space.
pub fn trim(s: &str) -> (r: String)
    ensures
        r@ == trimmed(s@),
{
    let bytes: &[u8] = s.as_bytes();
    let ghost t = s@;
    let mut seen: bool = false;
    let mut start: usize = 0;
    let mut end: usize = 0;
    let mut at: usize = 0;
    let ghost mut from: int = 0;
    let ghost mut to: int = 0;
    for c in it: s.chars()
        invariant
            t == s@,
            it.seq() == t,
            bytes@ == encode_utf8(t),
            at == encode_utf8(t.take(it.index())).len(),
            at <= bytes@.len(),
            0 <= from <= to <= it.index(),
            start == encode_utf8(t.take(from)).len(),
            end == encode_utf8(t.take(to)).len(),
            !seen ==> from == to && from == it.index(),
            seen ==> from < to && !is_white(t[from]) && !is_white(t[to - 1]),
            forall|i: int| 0 <= i < from ==> is_white(#[trigger] t[i]),
            forall|i: int| to <= i < it.index() ==> is_white(#[trigger] t[i]),
    {
        let ghost n = it.index() as int;
        assert(c == t[n]);
        proof {
            encoding_grows(t, n);
            encoded_middle(t, 0, n + 1);
        }
        assert(bytes@.len() == bytes.len());
        let after: usize = at + encoded_len(c);
        if is_whitespace(c) {
            if !seen {
                start = after;
                end = after;
                proof {
                    from = n + 1;
                    to = n + 1;
                }
            }
        } else {
            seen = true;
            end = after;
            proof {
                to = n + 1;
            }
        }
        at = after;
    }
    proof {
        encoded_middle(t, from, to);
        trimmed_is_the_middle(t, from, to);
        encode_utf8_valid_utf8(t.subrange(from, to));
        encode_utf8_decode_utf8(t.subrange(from, to));
    }
    let middle = copy_bytes(slice_subrange(bytes, start, end));
    match string_from_utf8(middle) {
        Some(r) => r,
        None => String::new(),
    }
}

// ---------------------------------------------------------------------------
// Case-insensitive names
// ---------------------------------------------------------------------------

/// A byte with ASCII capitals made small.
pub open spec fn lowered(b: u8) -> u8 {
    if 65 <= b <= 90 {
        (b + 32) as u8
    } else {
        b
    }
}

/// Two texts are equal but for the case of ASCII letters.
pub open spec fn same_name(a: Seq<char>, b: Seq<char>) -> bool {
    let x = encode_utf8(a);
    let y = encode_utf8(b);
    x.len() == y.len() && forall|i: int|
        0 <= i < x.len() ==> lowered(#[trigger] x[i]) == lowered(#[trigger] y[i])
}

fn lower(b: u8) -> (r: u8)
    ensures
        r == lowered(b),
{
    if 65 <= b && b <= 90 {
        b + 32
    } else {
        b
    }
}

/// Whether two texts are equal but for the case of ASCII letters.
pub fn eq_ignore_ascii_case(a: &str, b: &str) -> (r: bool)
    ensures
        r == same_name(a@, b@),
{
    let x: &[u8] = a.as_bytes();
    let y: &[u8] = b.as_bytes();
    if x.len() != y.len() {
        return false;
    }
    let mut i: usize = 0;
    while i < x.len()
        invariant
            x@ == encode_utf8(a@),
            y@ == encode_utf8(b@),
            x@.len() == y@.len(),
            i <= x.len(),
            forall|j: int| 0 <= j < i ==> lowered(#[trigger] x@[j]) == lowered(#[trigger] y@[j]),
        decreases x.len() - i,
    {
        if lower(x[i]) != lower(y[i]) {
            return false;
        }
        i = i + 1;
    }
    true
}

// ---------------------------------------------------------------------------
// Decimal numbers
// ---------------------------------------------------------------------------

/// The decimal digits of `n`.
pub open spec fn decimal(n: nat) -> Seq<u8>
    decreases n,
{
    if n < 10 {
        seq![(48 + n) as u8]
    } else {
        decimal(n / 10).push((48 + n % 10) as u8)
    }
}

/// The number that a string of decimal digits denotes, if it is one.
pub open spec fn digits_value(s: Seq<u8>) -> Option<nat>
    decreases s.len(),
{
    if s.len() == 0 {
        Some(0)
    } else if !(48 <= s.last() <= 57) {
        None
    } else {
        match digits_value(s.drop_last()) {
            None => None,
            Some(v) => Some(v * 10 + (s.last() - 48) as nat),
        }
    }
}

/// The number that a string denotes: at least one digit, after an optional plus
/// sign.
pub open spec fn number_value(s: Seq<u8>) -> Option<nat> {
    let digits = if s.len() > 0 && s[0] == 43 {
        s.drop_first()
    } else {
        s
    };
    if digits.len() == 0 {
        None
    } else {
        digits_value(digits)
    }
}

/// The digits of a number denote it.
pub proof fn decimal_reads_back(n: nat)
    ensures
        number_value(decimal(n)) == Some(n),
        digits_value(decimal(n)) == Some(n),
        decimal(n).len() > 0,
        forall|i: int| 0 <= i < decimal(n).len() ==> 48 <= #[trigger] decimal(n)[i] <= 57,
    decreases n,
{
    reveal_with_fuel(digits_value, 2);
    if n >= 10 {
        decimal_reads_back(n / 10);
        assert(decimal(n).drop_last() =~= decimal(n / 10));
    } else {
        assert(decimal(n).drop_last() =~= Seq::<u8>::empty());
    }
    assert(decimal(n)[0] != 43);
}

/// The decimal digits of `n` as text.
pub open spec fn decimal_text(n: nat) -> Seq<char> {
    Seq::new(decimal(n).len(), |i: int| decimal(n)[i] as char)
}

/// The text of a number is encoded by its digits.
pub proof fn decimal_bytes(n: nat)
    ensures
        encode_utf8(decimal_text(n)) == decimal(n),
{
    decimal_reads_back(n);
    let t = decimal_text(n);
    assert forall|i: int| 0 <= i < t.len() implies '\0' <= #[trigger] t[i] <= '\u{7f}' && t[i] as u8
        == decimal(n)[i] by {
        let d = decimal(n)[i];
        assert(48 <= d <= 57);
    }
    is_ascii_chars_encode_utf8(t);
    assert forall|i: int| 0 <= i < t.len() implies #[trigger] encode_utf8(t)[i] == decimal(n)[i] by {
        assert(t[i] as u8 == encode_utf8(t)[i]);
    }
    assert(encode_utf8(t) =~= decimal(n));
}

/// Text under construction.
pub struct TextBuf {
    bytes: Vec<u8>,
    text: Ghost<Seq<char>>,
}

impl View for TextBuf {
    type V = Seq<char>;

    closed spec fn view(&self) -> Seq<char> {
        self.text@
    }
}

impl TextBuf {
    /// The bytes are those of the text.
    pub closed spec fn wf(&self) -> bool {
        self.bytes@ == encode_utf8(self.text@)
    }

    /// No text yet.
    pub fn new() -> (r: Self)
        ensures
            r.wf(),
            r@ == Seq::<char>::empty(),
    {
        let r = TextBuf { bytes: Vec::new(), text: Ghost(Seq::empty()) };
        assert(r.bytes@ =~= encode_utf8(r.text@));
        r
    }

    /// Appends a text.
    pub fn push(&mut self, s: &str)
        requires
            old(self).wf(),
        ensures
            final(self).wf(),
            final(self)@ == old(self)@ + s@,
    {
        let ghost whole = self.text@ + s@;
        put_raw(&mut self.bytes, s.as_bytes());
        proof {
            encoding_of_sum(self.text@, s@);
        }
        self.text = Ghost(whole);
    }

    /// Appends a number in decimal.
    pub fn push_number(&mut self, n: u64)
        requires
            old(self).wf(),
        ensures
            final(self).wf(),
            final(self)@ == old(self)@ + decimal_text(n as nat),
    {
        let ghost whole = self.text@ + decimal_text(n as nat);
        put_decimal(&mut self.bytes, n);
        proof {
            decimal_bytes(n as nat);
            encoding_of_sum(self.text@, decimal_text(n as nat));
        }
        self.text = Ghost(whole);
    }

    /// The encoding of the text.
    pub fn into_bytes(self) -> (bytes: Vec<u8>)
        requires
            self.wf(),
        ensures
            bytes@ == encode_utf8(self@),
    {
        self.bytes
    }

    /// The text.
    pub fn into_text(self) -> (text: String)
        requires
            self.wf(),
        ensures
            text@ == self@,
    {
        proof {
            encode_utf8_valid_utf8(self.text@);
            encode_utf8_decode_utf8(self.text@);
        }
        match string_from_utf8(self.bytes) {
            Some(text) => text,
            None => String::new(),
        }
    }
}

/// Appends the decimal digits of `n`.
pub fn put_decimal(buf: &mut Vec<u8>, n: u64)
    ensures
        final(buf)@ == old(buf)@ + decimal(n as nat),
    decreases n,
{
    let ghost before = buf@;
    if n >= 10 {
        put_decimal(buf, n / 10);
    }
    let ghost lead = buf@;
    buf.push(48 + (n % 10) as u8);
    proof {
        if n >= 10 {
            assert(buf@ =~= before + decimal(n as nat));
        } else {
            assert(buf@ =~= before + decimal(n as nat));
        }
    }
}

/// A prefix of a digit string denotes no more than the whole.
proof fn digits_grow(s: Seq<u8>, n: int)
    requires
        0 <= n <= s.len(),
        digits_value(s) is Some,
    ensures
        digits_value(s.take(n)) is Some,
        digits_value(s.take(n)).unwrap() <= digits_value(s).unwrap(),
    decreases s.len(),
{
    if n == s.len() {
        assert(s.take(n) =~= s);
    } else {
        digits_grow(s.drop_last(), n);
        assert(s.drop_last().take(n) =~= s.take(n));
    }
}

/// Something that is no digit makes the whole no number.
proof fn no_digit_no_number(s: Seq<u8>, n: int)
    requires
        0 <= n < s.len(),
        !(48 <= s[n] <= 57),
    ensures
        digits_value(s) is None,
    decreases s.len(),
{
    if n < s.len() - 1 {
        no_digit_no_number(s.drop_last(), n);
    }
}

/// Reads a number of at most `max`; nothing where the text is not a number or the
/// number is larger.
pub fn parse_number(s: &[u8], max: u64) -> (r: Option<u64>)
    ensures
        match number_value(s@) {
            Some(v) => if v <= max {
                r == Some(v as u64)
            } else {
                r is None
            },
            None => r is None,
        },
{
    let start: usize = if s.len() > 0 && s[0] == 43 {
        1
    } else {
        0
    };
    if start == s.len() {
        return None;
    }
    let ghost digits = s@.skip(start as int);
    proof {
        if start == 1 {
            assert(digits =~= s@.drop_first());
        } else {
            assert(digits =~= s@);
        }
        assert(digits.take(0) =~= Seq::<u8>::empty());
    }
    let mut v: u64 = 0;
    let mut i: usize = start;
    while i < s.len()
        invariant
            start <= i <= s.len(),
            digits == s@.skip(start as int),
            digits_value(digits.take(i - start)) == Some(v as nat),
            v <= max,
            number_value(s@) == digits_value(digits),
        decreases s.len() - i,
    {
        let b: u8 = s[i];
        let ghost n = (i - start) as int;
        assert(digits[n] == b);
        if b < 48 || b > 57 {
            proof {
                no_digit_no_number(digits, n);
            }
            return None;
        }
        let d: u64 = (b - 48) as u64;
        assert(digits.take(n + 1).drop_last() =~= digits.take(n));
        assert(digits_value(digits.take(n + 1)) == Some((v * 10 + d) as nat));
        if d > max || v > max / 10 || v * 10 > max - d {
            proof {
                if digits_value(digits) is Some {
                    digits_grow(digits, n + 1);
                }
            }
            return None;
        }
        v = v * 10 + d;
        i = i + 1;
    }
    assert(digits.take(i - start) =~= digits);
    Some(v)
}

} // verus!
