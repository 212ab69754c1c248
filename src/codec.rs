//! Percent-encoding of request targets and listing links, through the
//! `urlencoding` crate, with the exact byte-level behaviour stated here.

use vstd::prelude::*;

verus! {

pub const PERCENT: u8 = 37;

/// `0-9`, `A-F` or `a-f`.
pub open spec fn is_hex_digit(d: u8) -> bool {
    (48 <= d <= 57) || (65 <= d <= 70) || (97 <= d <= 102)
}

/// The number that a hex digit spells.
pub open spec fn hex_value(d: u8) -> int {
    if d <= 57 {
        d - 48
    } else if d <= 70 {
        d - 55
    } else {
        d - 87
    }
}

/// Every `%` followed by two hex digits becomes the byte that they spell;
/// every other byte is kept.
pub open spec fn percent_decode(s: Seq<u8>) -> Seq<u8>
    decreases s.len(),
{
    if s.len() == 0 {
        seq![]
    } else if s[0] == PERCENT && s.len() >= 3 && is_hex_digit(s[1]) && is_hex_digit(s[2]) {
        seq![(hex_value(s[1]) * 16 + hex_value(s[2])) as u8] + percent_decode(s.subrange(3, s.len() as int))
    } else {
        seq![s[0]] + percent_decode(s.drop_first())
    }
}

/// ASCII letters and digits, `-`, `.`, `_` and `~` are written as they are.
pub open spec fn is_unreserved(b: u8) -> bool {
    (48 <= b <= 57) || (65 <= b <= 90) || (97 <= b <= 122) || b == 45 || b == 46 || b == 95 || b
        == 126
}

/// The upper-case hex digit for `n < 16`.
pub open spec fn hex_digit(n: int) -> u8 {
    if n < 10 {
        (48 + n) as u8
    } else {
        (55 + n) as u8
    }
}

/// One byte, escaped as `%XX` unless it is unreserved.
pub open spec fn encode_byte(b: u8) -> Seq<u8> {
    if is_unreserved(b) {
        seq![b]
    } else {
        seq![PERCENT, hex_digit(b as int / 16), hex_digit(b as int % 16)]
    }
}

/// Every byte of `s`, escaped as `encode_byte` says.
pub open spec fn percent_encode(s: Seq<u8>) -> Seq<u8>
    decreases s.len(),
{
    if s.len() == 0 {
        seq![]
    } else {
        encode_byte(s[0]) + percent_encode(s.drop_first())
    }
}

/// Relies on `urlencoding::decode_binary`: `%XX` with two hex digits (either
/// case) becomes one byte; a `%` without two hex digits after it is kept.
#[verifier::external_body]
pub(crate) fn decode_binary(data: &[u8]) -> (r: Vec<u8>)
    ensures
        r@ == percent_decode(data@),
{
    urlencoding::decode_binary(data).into_owned()
}

/// Relies on `urlencoding::encode_binary`: every byte but ASCII letters,
/// digits and `-._~` is written as `%` and two upper-case hex digits.
#[verifier::external_body]
pub(crate) fn encode_binary(data: &[u8]) -> (r: Vec<u8>)
    ensures
        r@ == percent_encode(data@),
{
    urlencoding::encode_binary(data).into_owned().into_bytes()
}

/// Decoding what was encoded gives back the bytes that were encoded.
pub proof fn lemma_decode_encode(s: Seq<u8>)
    ensures
        percent_decode(percent_encode(s)) == s,
    decreases s.len(),
{
    if s.len() > 0 {
        let rest = s.drop_first();
        let e = percent_encode(s);
        lemma_decode_encode(rest);
        let b = s[0];
        if is_unreserved(b) {
            assert(e.drop_first() =~= percent_encode(rest));
            assert(percent_decode(e) =~= seq![b] + rest);
        } else {
            let hi = b as int / 16;
            let lo = b as int % 16;
            assert(hex_value(hex_digit(hi)) == hi);
            assert(hex_value(hex_digit(lo)) == lo);
            assert(e.subrange(3, e.len() as int) =~= percent_encode(rest));
            assert((hi * 16 + lo) as u8 == b);
            assert(percent_decode(e) =~= seq![b] + rest);
        }
        assert(seq![b] + rest =~= s);
    }
}

} // verus!
