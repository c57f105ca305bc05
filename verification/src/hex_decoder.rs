//! Strict hexadecimal-to-bytes decoding.
//!
//! A word decodes successfully exactly when it consists of an even number of
//! hexadecimal digits; each digit pair yields one byte, the first digit being
//! the high nibble. Decoding is offered as a boolean probe over a reusable,
//! caller-owned buffer: the buffer is cleared on every attempt, and after a
//! failed attempt its contents are unspecified and must not be relied on.

use vstd::prelude::*;
use vstd::string::StrSliceExecFns;

verus! {

/// Whether `c` is a hexadecimal digit, in either case.
pub open spec fn is_hex_digit(c: char) -> bool {
    ('0' as int) <= (c as int) <= ('9' as int)
        || ('a' as int) <= (c as int) <= ('f' as int)
        || ('A' as int) <= (c as int) <= ('F' as int)
}

/// The numeric value of the hexadecimal digit `c`.
///
/// Meaningful only when `is_hex_digit(c)` holds.
pub open spec fn hex_digit_value(c: char) -> int {
    if ('0' as int) <= (c as int) <= ('9' as int) {
        (c as int) - ('0' as int)
    } else if ('a' as int) <= (c as int) <= ('f' as int) {
        (c as int) - ('a' as int) + 10
    } else {
        (c as int) - ('A' as int) + 10
    }
}

/// Whether `s` is a well-formed hexadecimal word: an even number of
/// characters, all of them hexadecimal digits. The empty word is well-formed
/// and denotes zero bytes.
pub open spec fn is_hex_word(s: Seq<char>) -> bool {
    s.len() % 2 == 0 && (forall|i: int| 0 <= i < s.len() ==> is_hex_digit(#[trigger] s[i]))
}

/// The bytes denoted by the hexadecimal word `s`: one byte per digit pair,
/// first digit high nibble. Meaningful only when `is_hex_word(s)` holds.
pub open spec fn hex_bytes(s: Seq<char>) -> Seq<u8> {
    Seq::new((s.len() / 2) as nat, |i: int|
        (hex_digit_value(s[2 * i]) * 16 + hex_digit_value(s[2 * i + 1])) as u8)
}

/// The lowercase hexadecimal digit for a value `v` in `0..16`.
pub open spec fn lower_hex_digit(v: int) -> char {
    if v == 0 { '0' } else if v == 1 { '1' } else if v == 2 { '2' } else if v == 3 { '3' }
    else if v == 4 { '4' } else if v == 5 { '5' } else if v == 6 { '6' } else if v == 7 { '7' }
    else if v == 8 { '8' } else if v == 9 { '9' } else if v == 10 { 'a' } else if v == 11 { 'b' }
    else if v == 12 { 'c' } else if v == 13 { 'd' } else if v == 14 { 'e' } else { 'f' }
}

/// The lowercase hexadecimal word denoting the bytes `b`: two digits per
/// byte, high nibble first. Re-encoding itself is done by external callers;
/// this function is the mathematical statement of what they produce.
pub open spec fn hex_encode(b: Seq<u8>) -> Seq<char> {
    Seq::new(2 * b.len(), |i: int|
        if i % 2 == 0 {
            lower_hex_digit((b[i / 2] as int) / 16)
        } else {
            lower_hex_digit((b[i / 2] as int) % 16)
        })
}

/// The numeric value of a hexadecimal digit, in executable form.
fn hex_digit_of(c: char) -> (r: Option<u8>)
    ensures
        r is Some <==> is_hex_digit(c),
        r is Some ==> r->0 as int == hex_digit_value(c) && r->0 < 16,
{
    let v = c as u32;
    if 48 <= v && v <= 57 {
        Some((v - 48) as u8)
    } else if 97 <= v && v <= 102 {
        Some((v - 97 + 10) as u8)
    } else if 65 <= v && v <= 70 {
        Some((v - 65 + 10) as u8)
    } else {
        None
    }
}

/// Try to parse raw hex bytes and push them into the buffer.
///
/// The buffer is cleared unconditionally before anything is interpreted.
/// The call returns true exactly when the word is an even-length string of
/// hexadecimal digits; in that case the buffer holds precisely the decoded
/// bytes, whatever it held before the call. On failure the buffer holds an
/// unspecified prefix of the decoded bytes and must not be relied on.
pub fn try_parse_raw_hex(hex: &str, buf: &mut Vec<u8>) -> (r: bool)
    ensures
        r == is_hex_word(hex@),
        r ==> final(buf)@ == hex_bytes(hex@),
{
    buf.clear();
    let n = hex.unicode_len();
    if n % 2 != 0 {
        return false;
    }
    let mut i: usize = 0;
    while i < n
        invariant
            n == hex@.len(),
            n % 2 == 0,
            i % 2 == 0,
            i <= n,
            buf@.len() == i / 2,
            forall|j: int| 0 <= j < i ==> is_hex_digit(#[trigger] hex@[j]),
            forall|k: int| 0 <= k < i / 2 ==> #[trigger] buf@[k]
                == (hex_digit_value(hex@[2 * k]) * 16 + hex_digit_value(hex@[2 * k + 1])) as u8,
        decreases n - i,
    {
        let c0 = hex.get_char(i);
        let c1 = hex.get_char(i + 1);
        let v0 = match hex_digit_of(c0) {
            Some(v) => v,
            None => return false,
        };
        let v1 = match hex_digit_of(c1) {
            Some(v) => v,
            None => return false,
        };
        buf.push(v0 * 16 + v1);
        i = i + 2;
    }
    assert(buf@ =~= hex_bytes(hex@));
    true
}

/// Law: encoding any byte sequence yields a well-formed hexadecimal word,
/// and decoding that word gives back exactly the original bytes.
pub proof fn lemma_hex_round_trip(b: Seq<u8>)
    ensures
        is_hex_word(hex_encode(b)),
        hex_bytes(hex_encode(b)) == b,
{
    let w = hex_encode(b);
    assert forall|i: int| 0 <= i < w.len() implies is_hex_digit(#[trigger] w[i]) by {
        let v = b[i / 2] as int;
        assert(0 <= v / 16 < 16 && 0 <= v % 16 < 16) by (nonlinear_arith)
            requires 0 <= v < 256;
    }
    assert forall|k: int| 0 <= k < hex_bytes(w).len() implies #[trigger] hex_bytes(w)[k]
        == b[k] by {
        let v = b[k] as int;
        assert(0 <= v / 16 < 16 && 0 <= v % 16 < 16 && (v / 16) * 16 + v % 16 == v)
            by (nonlinear_arith)
            requires 0 <= v < 256;
        assert(w[2 * k] == lower_hex_digit(v / 16));
        assert(w[2 * k + 1] == lower_hex_digit(v % 16));
        assert(hex_digit_value(lower_hex_digit(v / 16)) == v / 16);
        assert(hex_digit_value(lower_hex_digit(v % 16)) == v % 16);
    }
    assert(hex_bytes(w) =~= b);
}

/// Law: decoding a well-formed hexadecimal word and re-encoding the decoded
/// bytes yields a word denoting the same byte values, whatever the case of
/// the original digits was.
pub proof fn lemma_decode_reencode(w: Seq<char>)
    requires
        is_hex_word(w),
    ensures
        is_hex_word(hex_encode(hex_bytes(w))),
        hex_bytes(hex_encode(hex_bytes(w))) == hex_bytes(w),
{
    lemma_hex_round_trip(hex_bytes(w));
}

} // verus!
