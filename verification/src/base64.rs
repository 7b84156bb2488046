//! Base-64 digit codec: integers 0..=63 map to single ASCII characters drawn
//! from the alphabet `A-Z` (0..=25), `a-z` (26..=51), `0-9` (52..=61),
//! `+` (62) and `/` (63).
use vstd::prelude::*;

verus! {

/// Whether `c` is one of the 64 alphabet characters.
pub open spec fn is_base64_digit(c: u8) -> bool {
    (('A' as u8) <= c <= ('Z' as u8)) || (('a' as u8) <= c <= ('z' as u8)) || (('0' as u8) <= c <= ('9' as u8)) || c == ('+' as u8) || c == ('/' as u8)
}

/// The alphabet character standing for a value in 0..=63.
pub open spec fn digit_of_value(v: int) -> u8 {
    if 0 <= v <= 25 {
        (('A' as u8) + v) as u8
    } else if 26 <= v <= 51 {
        (('a' as u8) + (v - 26)) as u8
    } else if 52 <= v <= 61 {
        (('0' as u8) + (v - 52)) as u8
    } else if v == 62 {
        ('+' as u8)
    } else {
        ('/' as u8)
    }
}

/// The value in 0..=63 that an alphabet character stands for.
pub open spec fn value_of_digit(c: u8) -> int {
    if ('A' as u8) <= c <= ('Z' as u8) {
        c - ('A' as u8)
    } else if ('a' as u8) <= c <= ('z' as u8) {
        c - ('a' as u8) + 26
    } else if ('0' as u8) <= c <= ('9' as u8) {
        c - ('0' as u8) + 52
    } else if c == ('+' as u8) {
        62
    } else {
        63
    }
}

/// Encode an integer in the range of 0 to 63 to a single base 64 digit.
pub fn encode(number: i32) -> (r: Option<u8>)
    ensures
        r is Some <==> 0 <= number <= 63,
        0 <= number <= 63 ==> r == Some(digit_of_value(number as int)),
{
    if 0 <= number && number < 64 {
        let v = number as u8;
        if v < 26 {
            Some(('A' as u8) + v)
        } else if v < 52 {
            Some(('a' as u8) + (v - 26))
        } else if v < 62 {
            Some(('0' as u8) + (v - 52))
        } else if v == 62 {
            Some(('+' as u8))
        } else {
            Some(('/' as u8))
        }
    } else {
        None
    }
}

/// Decode a single base 64 character code digit to an integer.
pub fn decode(char_code: u8) -> (r: Option<i32>)
    ensures
        r is Some <==> is_base64_digit(char_code),
        is_base64_digit(char_code) ==> r == Some(value_of_digit(char_code) as i32),
{
    // 0 - 25: ABCDEFGHIJKLMNOPQRSTUVWXYZ
    if ('A' as u8) <= char_code && char_code <= ('Z' as u8) {
        return Some((char_code - ('A' as u8)) as i32);
    }
    // 26 - 51: abcdefghijklmnopqrstuvwxyz
    if ('a' as u8) <= char_code && char_code <= ('z' as u8) {
        let lowercase_map_offset: i32 = 26;
        return Some((char_code - ('a' as u8)) as i32 + lowercase_map_offset);
    }
    // 52 - 61: 0123456789
    if ('0' as u8) <= char_code && char_code <= ('9' as u8) {
        let number_map_offset: i32 = 52;
        return Some((char_code - ('0' as u8)) as i32 + number_map_offset);
    }
    // 62: +
    if char_code == ('+' as u8) {
        return Some(62);
    }
    // 63: /
    if char_code == ('/' as u8) {
        return Some(63);
    }
    // Invalid base64 digit.
    None
}

/// Round trip: every value in 0..=63 survives encoding followed by decoding.
pub proof fn lemma_digit_round_trip_value(v: int)
    requires
        0 <= v <= 63,
    ensures
        is_base64_digit(digit_of_value(v)),
        value_of_digit(digit_of_value(v)) == v,
{
}

/// Round trip: every alphabet character survives decoding followed by encoding.
pub proof fn lemma_digit_round_trip_digit(c: u8)
    requires
        is_base64_digit(c),
    ensures
        0 <= value_of_digit(c) <= 63,
        digit_of_value(value_of_digit(c)) == c,
{
}

} // verus!
