//! The G60 alphabet: a bijection between the digit values `0..60` and the
//! sixty ASCII characters `0-9`, `A-Z` without `I` and `O`, and `a-z`.

use vstd::prelude::*;

verus! {

/// Whether `b` is the ASCII code of one of the sixty alphabet characters.
pub open spec fn is_symbol_byte(b: u8) -> bool {
    ||| 48 <= b <= 57
    ||| 65 <= b <= 72
    ||| 74 <= b <= 78
    ||| 80 <= b <= 90
    ||| 97 <= b <= 122
}

/// The ASCII code of the alphabet character for the digit value `d`.
pub open spec fn symbol_char(d: u8) -> u8
    recommends
        d < 60,
{
    if d < 10 {
        (48 + d) as u8
    } else if d < 18 {
        (55 + d) as u8
    } else if d < 23 {
        (56 + d) as u8
    } else if d < 34 {
        (57 + d) as u8
    } else {
        (63 + d) as u8
    }
}

/// The digit value of the alphabet character with ASCII code `b`.
pub open spec fn symbol_value(b: u8) -> u8
    recommends
        is_symbol_byte(b),
{
    if 48 <= b <= 57 {
        (b - 48) as u8
    } else if 65 <= b <= 72 {
        (b - 55) as u8
    } else if 74 <= b <= 78 {
        (b - 56) as u8
    } else if 80 <= b <= 90 {
        (b - 57) as u8
    } else {
        (b - 63) as u8
    }
}

/// Every digit value below sixty maps to an alphabet character and back to
/// itself.
pub proof fn lemma_symbol_char_roundtrip(d: u8)
    requires
        d < 60,
    ensures
        is_symbol_byte(symbol_char(d)),
        symbol_char(d) < 128,
        symbol_value(symbol_char(d)) == d,
{
}

/// Every alphabet character maps to a digit value below sixty and back to
/// itself.
pub proof fn lemma_symbol_value_roundtrip(b: u8)
    requires
        is_symbol_byte(b),
    ensures
        symbol_value(b) < 60,
        symbol_char(symbol_value(b)) == b,
{
}

/// The character order agrees with the digit order.
pub proof fn lemma_symbol_char_monotone(d1: u8, d2: u8)
    requires
        d1 < d2 < 60,
    ensures
        symbol_char(d1) < symbol_char(d2),
{
}

/// Maps a digit value to its alphabet character.
pub fn encode_symbol(d: u8) -> (r: u8)
    requires
        d < 60,
    ensures
        r == symbol_char(d),
{
    if d < 10 {
        48 + d
    } else if d < 18 {
        55 + d
    } else if d < 23 {
        56 + d
    } else if d < 34 {
        57 + d
    } else {
        63 + d
    }
}

/// Maps an ASCII code to its digit value, or to the sentinel 255 when it is
/// not an alphabet character.
pub fn decode_symbol(b: u8) -> (r: u8)
    ensures
        is_symbol_byte(b) ==> r == symbol_value(b) && r < 60,
        !is_symbol_byte(b) ==> r == 255,
{
    if 48 <= b && b <= 57 {
        b - 48
    } else if 65 <= b && b <= 72 {
        b - 55
    } else if 74 <= b && b <= 78 {
        b - 56
    } else if 80 <= b && b <= 90 {
        b - 57
    } else if 97 <= b && b <= 122 {
        b - 63
    } else {
        255
    }
}

} // verus!
