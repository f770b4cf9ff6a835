//! How the gateway's settings are read from the text that operators give.

use crate::hash;
use crate::hash::sha256;
use crate::http::field_laws;
use crate::http::wire_laws;
use crate::lex;
use crate::lex::{parse_number, trim, TextBuf};
use crate::text;
use vstd::prelude::*;
use vstd::utf8::*;

verus! {

/// The value of a lowercase hexadecimal digit.
pub open spec fn nibble_value(b: u8) -> Option<u8> {
    if 48 <= b <= 57 {
        Some((b - 48) as u8)
    } else if 97 <= b <= 102 {
        Some((b - 87) as u8)
    } else {
        None
    }
}

/// The value of a lowercase hexadecimal digit.
pub fn hex_nibble(b: u8) -> (value: Option<u8>)
    ensures
        value == nibble_value(b),
{
    if 48 <= b && b <= 57 {
        Some(b - 48)
    } else if 97 <= b && b <= 102 {
        Some(b - 87)
    } else {
        None
    }
}

/// 64 lowercase hexadecimal digits.
pub open spec fn is_hex32(s: Seq<u8>) -> bool {
    s.len() == 64 && forall|i: int| 0 <= i < 64 ==> nibble_value(#[trigger] s[i]) is Some
}

/// The bytes that hexadecimal digits denote, two digits to a byte, the high one
/// first.
pub open spec fn hex_bytes(s: Seq<u8>) -> Seq<u8> {
    Seq::new(
        s.len() / 2,
        |i: int|
            (nibble_value(s[2 * i])->Some_0 * 16 + nibble_value(s[2 * i + 1])->Some_0) as u8,
    )
}

/// Decode a 64-character lowercase hexadecimal string, with white space around it
/// ignored, into 32 bytes.
pub fn parse_hex32(s: &str) -> (key: Option<[u8; 32]>)
    ensures
        ({
            let digits = encode_utf8(lex::trimmed(s@));
            match key {
                Some(bytes) => is_hex32(digits) && bytes@ == hex_bytes(digits),
                None => !is_hex32(digits),
            }
        }),
{
    let text = trim(s);
    let digits: &[u8] = text.as_str().as_bytes();
    if digits.len() != 64 {
        return None;
    }
    let mut out: [u8; 32] = [0; 32];
    let mut i: usize = 0;
    while i < 32
        invariant
            i <= 32,
            digits@.len() == 64,
            digits@ == encode_utf8(lex::trimmed(s@)),
            forall|j: int| 0 <= j < 2 * i ==> nibble_value(#[trigger] digits@[j]) is Some,
            forall|j: int| 0 <= j < i ==> #[trigger] out@[j] == hex_bytes(digits@)[j],
        decreases 32 - i,
    {
        let (high, low) = match (hex_nibble(digits[2 * i]), hex_nibble(digits[2 * i + 1])) {
            (Some(high), Some(low)) => (high, low),
            _ => {
                assert(nibble_value(digits@[2 * i as int]) is None || nibble_value(
                    digits@[2 * i + 1],
                ) is None);
                return None;
            },
        };
        out[i] = high * 16 + low;
        i = i + 1;
    }
    assert(out@ =~= hex_bytes(digits@));
    Some(out)
}

/// The key for request fingerprints, and whether the configured one had to be
/// passed over.
#[derive(Debug)]
pub struct FingerprintKey {
    pub key: [u8; 32],
    /// A key was configured but is not 64 lowercase hexadecimal digits.
    pub malformed: bool,
}

/// The key for request fingerprints: the configured one where there is one and it
/// is well formed, and otherwise one derived from the log's path prefix, which is
/// stable and not all zeros.
pub fn fingerprint_key(configured: Option<&str>, wal_prefix: &str) -> (r: FingerprintKey)
    ensures
        match configured {
            Some(hex) => {
                let digits = encode_utf8(lex::trimmed(hex@));
                &&& r.malformed == !is_hex32(digits)
                &&& r.key@ == if is_hex32(digits) {
                    hex_bytes(digits)
                } else {
                    hash::sha256_digest(encode_utf8(wal_prefix@))
                }
            },
            None => !r.malformed && r.key@ == hash::sha256_digest(encode_utf8(wal_prefix@)),
        },
{
    match configured {
        Some(hex) => match parse_hex32(hex) {
            Some(key) => FingerprintKey { key, malformed: false },
            None => FingerprintKey { key: sha256(wal_prefix.as_bytes()), malformed: true },
        },
        None => FingerprintKey { key: sha256(wal_prefix.as_bytes()), malformed: false },
    }
}

/// The configured number where there is one that fits, and `default` otherwise.
pub fn number_or(configured: Option<&str>, default: u64) -> (n: u64)
    ensures
        n == match configured {
            Some(text) => match lex::number_value(encode_utf8(text@)) {
                Some(v) => if v <= u64::MAX {
                    v as u64
                } else {
                    default
                },
                None => default,
            },
            None => default,
        },
{
    match configured {
        Some(text) => match parse_number(text.as_bytes(), u64::MAX) {
            Some(n) => n,
            None => default,
        },
        None => default,
    }
}

/// The number of shards: the configured one where it is a positive number,
/// otherwise the machine's processor count, otherwise 1.
pub fn shard_count(configured: Option<&str>, processors: Option<usize>) -> (n: usize)
    ensures
        n == {
            let otherwise = match processors {
                Some(count) => count,
                None => 1,
            };
            match configured {
                Some(text) => match lex::number_value(encode_utf8(text@)) {
                    Some(v) => if 0 < v <= usize::MAX {
                        v as usize
                    } else {
                        otherwise
                    },
                    None => otherwise,
                },
                None => otherwise,
            }
        },
{
    if let Some(text) = configured {
        if let Some(n) = parse_number(text.as_bytes(), usize::MAX as u64) {
            if n > 0 {
                return n as usize;
            }
        }
    }
    match processors {
        Some(count) => count,
        None => 1,
    }
}

/// The path of the log of shard `i`.
pub fn wal_path(prefix: &str, i: usize) -> (path: String)
    ensures
        path@ == prefix@ + "."@ + lex::decimal_text(i as nat) + ".wal"@,
{
    let mut path = TextBuf::new();
    path.push(prefix);
    path.push(".");
    path.push_number(i as u64);
    path.push(".wal");
    let text = path.into_text();
    assert(text@ =~= prefix@ + "."@ + lex::decimal_text(i as nat) + ".wal"@);
    text
}

/// `c` is the hexadecimal digit of `v`, in small letters.
pub open spec fn spells(c: char, v: int) -> bool {
    if v < 10 {
        c as int == '0' as int + v
    } else {
        c as int == 'a' as int + (v - 10)
    }
}

/// The text spells the bytes of a key, two digits to a byte, the high one first.
pub open spec fn spells_out(t: Seq<char>, key: Seq<u8>) -> bool {
    &&& t.len() == 2 * key.len()
    &&& forall|i: int|
        0 <= i < key.len() ==> spells(t[2 * i], #[trigger] key[i] as int / 16) && spells(
            t[2 * i + 1],
            key[i] as int % 16,
        )
}

/// A key that is spelled out in 64 digits, with white space around them or not, is read
/// as that key.
pub proof fn a_key_is_read_as_it_is_spelled(
    lead: Seq<char>,
    t: Seq<char>,
    trail: Seq<char>,
    key: Seq<u8>,
)
    requires
        key.len() == 32,
        spells_out(t, key),
        wire_laws::is_blank(lead),
        wire_laws::is_blank(trail),
    ensures
        ({
            let digits = encode_utf8(lex::trimmed(lead + t + trail));
            is_hex32(digits) && hex_bytes(digits) == key
        }),
{
    assert forall|i: int| 0 <= i < 64 implies '0' <= #[trigger] t[i] <= '9' || 'a' <= t[i] <= 'f' by {
        let b = key[i / 2];
        assert(spells(t[2 * (i / 2)], b as int / 16) && spells(
            t[2 * (i / 2) + 1],
            b as int % 16,
        ));
        assert(i == 2 * (i / 2) || i == 2 * (i / 2) + 1);
    }
    assert forall|i: int| 0 <= i < t.len() implies '\0' <= #[trigger] t[i] <= '\u{7f}' by {
        assert('0' <= t[i] <= '9' || 'a' <= t[i] <= 'f');
    }
    is_ascii_chars_encode_utf8(t);
    let (first, last) = (t[0], t[63]);
    char_is_scalar(first);
    char_is_scalar(last);
    char_u32_cast(first, first as u32);
    char_u32_cast(last, last as u32);
    assert forall|i: int| 0 <= i < lead.len() implies lex::is_white(#[trigger] lead[i]) by {}
    assert forall|i: int| 0 <= i < trail.len() implies lex::is_white(#[trigger] trail[i]) by {}
    lex::white_space_around_is_dropped(lead, t, trail);
    let digits = encode_utf8(t);
    assert forall|i: int| 0 <= i < 64 implies nibble_value(#[trigger] digits[i]) is Some by {
        assert(t[i] as u8 == digits[i]);
    }
    assert forall|i: int| 0 <= i < 32 implies #[trigger] hex_bytes(digits)[i] == key[i] by {
        let b = key[i];
        assert(t[2 * i] as u8 == digits[2 * i] && t[2 * i + 1] as u8 == digits[2 * i + 1]);
        assert(spells(t[2 * i], b as int / 16) && spells(t[2 * i + 1], b as int % 16));
        assert(nibble_value(digits[2 * i]) == Some((b as int / 16) as u8));
        assert(nibble_value(digits[2 * i + 1]) == Some((b as int % 16) as u8));
    }
    assert(hex_bytes(digits) =~= key);
}

/// What is read as a key is spelled out in 64 digits, and no two keys are spelled alike.
pub proof fn only_a_spelled_key_is_read(t: Seq<char>)
    requires
        is_hex32(encode_utf8(t)),
    ensures
        t.len() == 64,
        spells_out(t, hex_bytes(encode_utf8(t))),
{
    let digits = encode_utf8(t);
    assert forall|i: int| 0 <= i < digits.len() implies #[trigger] digits[i] < 128 by {
        assert(nibble_value(digits[i]) is Some);
    }
    field_laws::ascii_bytes_are_ascii_text(t);
    is_ascii_chars_encode_utf8(t);
    let key = hex_bytes(digits);
    assert forall|i: int| 0 <= i < key.len() implies spells(t[2 * i], #[trigger] key[i] as int / 16)
        && spells(t[2 * i + 1], key[i] as int % 16) by {
        assert(t[2 * i] as u8 == digits[2 * i] && t[2 * i + 1] as u8 == digits[2 * i + 1]);
        let high = nibble_value(digits[2 * i])->Some_0;
        let low = nibble_value(digits[2 * i + 1])->Some_0;
        assert(nibble_value(digits[2 * i]) is Some && nibble_value(digits[2 * i + 1]) is Some);
        assert(high < 16 && low < 16);
        assert(key[i] == high * 16 + low);
    }
}

/// A setting is read as a number exactly where it is that number in decimal digits, with a
/// plus sign in front of them or not.
pub proof fn a_number_is_read_as_it_is_spelled(t: Seq<char>, n: nat)
    ensures
        wire_laws::denotes(t, n) ==> lex::number_value(encode_utf8(t)) == Some(n),
        lex::number_value(encode_utf8(t)) == Some(n) ==> wire_laws::denotes(t, n) || t.len() > 0
            && t[0] == '+' && wire_laws::denotes(t.drop_first(), n),
{
    if wire_laws::denotes(t, n) {
        wire_laws::digits_are_read_as_their_number(t, n);
    }
    if lex::number_value(encode_utf8(t)) == Some(n) {
        wire_laws::only_digits_are_read_as_a_number(t, n);
    }
}

/// No two shards keep their logs at one path, and every path starts with the prefix.
pub proof fn every_shard_has_its_own_log(
    prefix: &str,
    i: usize,
    j: usize,
    path: String,
    other: String,
)
    requires
        call_ensures(wal_path, (prefix, i), path),
        call_ensures(wal_path, (prefix, j), other),
    ensures
        path@ == other@ ==> i == j,
        prefix@.is_prefix_of(path@),
        prefix@.is_prefix_of(other@),
{
    let (a, b) = (lex::decimal_text(i as nat), lex::decimal_text(j as nat));
    let (head, tail) = (prefix@ + "."@, ".wal"@);
    assert(path@ == head + a + tail && other@ == head + b + tail);
    if path@ == other@ {
        assert(a.len() == b.len());
        assert(path@.subrange(head.len() as int, (head.len() + a.len()) as int) =~= a);
        assert(other@.subrange(head.len() as int, (head.len() + b.len()) as int) =~= b);
        wire_laws::written_digits_denote_the_number(i as nat);
        wire_laws::written_digits_denote_the_number(j as nat);
    }
}

/// A key that is spelled out is taken, however it is spaced, and not found malformed.
pub proof fn a_spelled_key_is_taken(
    hex: &str,
    wal_prefix: &str,
    r: FingerprintKey,
    lead: Seq<char>,
    t: Seq<char>,
    trail: Seq<char>,
    key: Seq<u8>,
)
    requires
        call_ensures(fingerprint_key, (Some(hex), wal_prefix), r),
        hex@ == lead + t + trail,
        key.len() == 32,
        spells_out(t, key),
        wire_laws::is_blank(lead),
        wire_laws::is_blank(trail),
    ensures
        r.key@ == key,
        !r.malformed,
{
    a_key_is_read_as_it_is_spelled(lead, t, trail, key);
}

/// Without a configured key, two logs have one derived key only where the digest confuses
/// the prefixes of their paths.
pub proof fn a_derived_key_is_the_digest_of_the_whole_prefix(
    prefix: &str,
    other: &str,
    r: FingerprintKey,
    s: FingerprintKey,
)
    requires
        call_ensures(fingerprint_key, (None, prefix), r),
        call_ensures(fingerprint_key, (None, other), s),
        r.key@ == s.key@,
    ensures
        !r.malformed,
        prefix@ == other@ || encode_utf8(prefix@) != encode_utf8(other@)
            && hash::sha256_digest(encode_utf8(prefix@)) == hash::sha256_digest(
            encode_utf8(other@),
        ),
{
    if encode_utf8(prefix@) == encode_utf8(other@) {
        text::encoding_is_injective(prefix@, other@);
    }
}

/// A setting that is a number in decimal digits is taken as that number where it fits;
/// without a setting, the default holds.
pub proof fn a_spelled_number_is_taken(
    setting: &str,
    default: u64,
    n: u64,
    unset: u64,
    value: nat,
)
    requires
        call_ensures(number_or, (Some(setting), default), n),
        call_ensures(number_or, (None, default), unset),
        wire_laws::denotes(setting@, value),
    ensures
        n == if value <= u64::MAX {
            value
        } else {
            default as nat
        },
        unset == default,
{
    a_number_is_read_as_it_is_spelled(setting@, value);
}

/// There are as many shards as the setting says, if that is a positive number; without a
/// setting, as many as there are processors, or one.
pub proof fn there_are_as_many_shards_as_set(
    setting: &str,
    processors: Option<usize>,
    n: usize,
    by_machine: usize,
    value: nat,
)
    requires
        call_ensures(shard_count, (Some(setting), processors), n),
        call_ensures(shard_count, (None, processors), by_machine),
        wire_laws::denotes(setting@, value),
    ensures
        0 < value <= usize::MAX ==> n == value,
        value == 0 ==> n == by_machine,
        processors matches Some(count) ==> by_machine == count,
        processors is None ==> by_machine == 1,
{
    a_number_is_read_as_it_is_spelled(setting@, value);
}

} // verus!
