//! Signed variable-length-quantity codec over base 64 digits.
//!
//! A single base 64 digit can contain 6 bits of data. For the base 64 variable
//! length quantities we use in the source map spec, the first bit is the sign,
//! the next four bits are the actual value, and the 6th bit is the
//! continuation bit. The continuation bit tells us whether there are more
//! digits in this value following this digit.
//!
//!   Continuation
//!   |    Sign
//!   |    |
//!   V    V
//!   101011
//!
//! All arithmetic lives in the signed 32-bit domain; magnitudes that do not
//! fit wrap around as two's-complement truncation, which the specification
//! functions below spell out exactly.
use vstd::prelude::*;

use crate::base64;

verus! {

pub const VLQ_BASE_SHIFT: i32 = 5;

// binary: 100000
pub const VLQ_BASE: i32 = 32;

// binary: 011111
pub const VLQ_BASE_MASK: i32 = 31;

// binary: 100000
pub const VLQ_CONTINUATION_BIT: i32 = 32;

/// The signed value whose two's-complement bits equal those of `u`.
pub open spec fn u32_as_i32(u: u32) -> i32 {
    if u <= 0x7FFF_FFFF {
        u as i32
    } else {
        (u - 0x1_0000_0000) as i32
    }
}

/// The unsigned value whose bits equal the two's-complement bits of `z`.
pub open spec fn i32_as_u32(z: i32) -> u32 {
    if z >= 0 {
        z as u32
    } else {
        (z + 0x1_0000_0000) as u32
    }
}

/// The exec cast `u as i32` reinterprets the bits of `u`.
pub proof fn lemma_u32_as_i32(u: u32)
    ensures
        #[verifier::truncate] (u as i32) == u32_as_i32(u),
{
    assert(#[verifier::truncate] (u as i32) == if u <= 0x7FFF_FFFF {
        u as int
    } else {
        u - 0x1_0000_0000
    }) by (bit_vector);
}

/// The exec cast `z as u32` reinterprets the bits of `z`.
pub proof fn lemma_i32_as_u32(z: i32)
    ensures
        #[verifier::truncate] (z as u32) == i32_as_u32(z),
{
    assert(#[verifier::truncate] (z as u32) == if z >= 0 {
        z as int
    } else {
        z + 0x1_0000_0000
    }) by (bit_vector);
}

/// The zig-zag transform as unbounded arithmetic: the sign of `value` moves
/// into the least significant bit, so small magnitudes of either sign give
/// small results.
pub open spec fn zigzag(value: i32) -> int {
    if value < 0 {
        2 * -(value as int) + 1
    } else {
        2 * (value as int)
    }
}

/// The zig-zag transform truncated into the signed 32-bit domain.
pub open spec fn to_vql_spec(value: i32) -> i32 {
    u32_as_i32((zigzag(value) % 0x1_0000_0000) as u32)
}

/// The inverse zig-zag transform: the least significant bit of `z` is the
/// sign, the remaining bits the magnitude. Total over all of `i32`.
pub open spec fn from_vql_spec(z: i32) -> i32 {
    if (z as int) % 2 == 1 {
        (-((z as int) / 2)) as i32
    } else {
        ((z as int) / 2) as i32
    }
}

/**
 * Converts from a two-complement value to a value where the sign bit is
 * placed in the least significant bit.  For example, as decimals:
 *   1 becomes 2 (10 binary), -1 becomes 3 (11 binary)
 *   2 becomes 4 (100 binary), -2 becomes 5 (101 binary)
 */
pub fn to_vql(value: i32) -> (r: i32)
    ensures
        r == to_vql_spec(value),
{
    if value >= 0 {
        let bits: u32 = (value as u32).wrapping_mul(2);
        proof {
            vstd::arithmetic::div_mod::lemma_small_mod((2 * value) as nat, 0x1_0000_0000);
            assert(bits == zigzag(value) % 0x1_0000_0000);
            lemma_u32_as_i32(bits);
        }
        #[verifier::truncate] (bits as i32)
    } else {
        let mag64: i64 = -(value as i64);
        let mag: u32 = mag64 as u32;
        let w: u32 = mag.wrapping_mul(2);
        let bits: u32 = w.wrapping_add(1);
        proof {
            let z = zigzag(value);
            assert(z == 2 * (mag as int) + 1);
            if mag < 0x8000_0000 {
                vstd::arithmetic::div_mod::lemma_small_mod((2 * mag) as nat, 0x1_0000_0000);
                assert(w == 2 * mag);
                vstd::arithmetic::div_mod::lemma_small_mod(z as nat, 0x1_0000_0000);
                assert(bits == z % 0x1_0000_0000);
            } else {
                assert(mag == 0x8000_0000);
                vstd::arithmetic::div_mod::lemma_mod_self_0(0x1_0000_0000);
                assert(w == 0);
                vstd::arithmetic::div_mod::lemma_mod_multiples_vanish(1, 1, 0x1_0000_0000);
                vstd::arithmetic::div_mod::lemma_small_mod(1nat, 0x1_0000_0000);
                assert(bits == z % 0x1_0000_0000);
            }
            lemma_u32_as_i32(bits);
        }
        #[verifier::truncate] (bits as i32)
    }
}

/**
 * Converts to a two-complement value from a value where the sign bit is
 * placed in the least significant bit.  For example, as decimals:
 *   2 (10 binary) becomes 1, 3 (11 binary) becomes -1
 *   4 (100 binary) becomes 2, 5 (101 binary) becomes -2
 */
pub fn from_vql(value: i32) -> (r: i32)
    ensures
        r == from_vql_spec(value),
{
    let z: u32 = #[verifier::truncate] (value as u32);
    proof {
        lemma_i32_as_u32(value);
    }
    let odd = z % 2 == 1;
    let half = z / 2;
    let shifted: i32 = if value >= 0 {
        half as i32
    } else {
        proof {
            assert(z == value + 0x1_0000_0000);
            assert(z % 2 == (value as int) % 2) by {
                vstd::arithmetic::div_mod::lemma_mod_multiples_vanish(
                    0x8000_0000,
                    value as int,
                    2,
                );
            }
            assert(z / 2 == (value as int) / 2 + 0x8000_0000) by {
                vstd::arithmetic::div_mod::lemma_hoist_over_denominator(
                    value as int,
                    0x8000_0000,
                    2,
                );
            }
            lemma_u32_as_i32((half + 0x8000_0000) as u32);
        }
        #[verifier::truncate] ((half + 0x8000_0000) as i32)
    };
    if odd {
        -shifted
    } else {
        shifted
    }
}

/// Zig-zag round trip: every value whose doubled magnitude stays inside the
/// signed 32-bit domain survives the transform and its inverse unchanged.
pub proof fn lemma_zigzag_round_trip(value: i32)
    requires
        -0x3FFF_FFFF <= value <= 0x3FFF_FFFF,
    ensures
        from_vql_spec(to_vql_spec(value)) == value,
{
    let z = zigzag(value);
    assert(0 <= z < 0x1_0000_0000);
    vstd::arithmetic::div_mod::lemma_small_mod(z as nat, 0x1_0000_0000);
    assert(to_vql_spec(value) == z as i32);
    if value < 0 {
        assert(z % 2 == 1 && z / 2 == -(value as int)) by {
            vstd::arithmetic::div_mod::lemma_div_multiples_vanish_fancy(-(value as int), 1, 2);
            vstd::arithmetic::div_mod::lemma_mod_multiples_vanish(-(value as int), 1, 2);
            vstd::arithmetic::div_mod::lemma_small_mod(1nat, 2nat);
        }
    } else {
        assert(z % 2 == 0 && z / 2 == value as int) by {
            vstd::arithmetic::div_mod::lemma_div_multiples_vanish_fancy(value as int, 0, 2);
            vstd::arithmetic::div_mod::lemma_mod_multiples_vanish(value as int, 0, 2);
            vstd::arithmetic::div_mod::lemma_small_mod(0nat, 2nat);
        }
    }
}

/// The character sequence that encodes the zig-zagged value `z`: five payload
/// bits per digit, least significant chunk first, the continuation bit set on
/// every digit but the last. A negative `z` (possible only after 32-bit
/// truncation) keeps the sign under the arithmetic shift of the encoder's
/// loop, which therefore stops after a single digit.
pub open spec fn vlq_bytes(z: int) -> Seq<u8>
    decreases z,
    via vlq_bytes_decreases
{
    if z < 0 {
        seq![base64::digit_of_value(z % 32)]
    } else if z < 32 {
        seq![base64::digit_of_value(z)]
    } else {
        seq![base64::digit_of_value(z % 32 + 32)] + vlq_bytes(z / 32)
    }
}

#[via_fn]
proof fn vlq_bytes_decreases(z: int) {
    if z >= 32 {
        vstd::arithmetic::div_mod::lemma_div_pos_is_pos(z, 32);
        vstd::arithmetic::div_mod::lemma_div_is_strictly_smaller(z, 32);
    }
}

/// The payload digits (least significant first) of the first VLQ value in
/// `s`, or None if a character outside the alphabet appears, or the input
/// ends, before a digit without the continuation bit.
pub open spec fn vlq_digits(s: Seq<u8>) -> Option<Seq<int>>
    decreases s.len(),
{
    if s.len() == 0 {
        None
    } else if !base64::is_base64_digit(s[0]) {
        None
    } else {
        let d = base64::value_of_digit(s[0]);
        if d < 32 {
            Some(seq![d])
        } else {
            match vlq_digits(s.drop_first()) {
                None => None,
                Some(rest) => Some(seq![d - 32] + rest),
            }
        }
    }
}

/// The integer that a sequence of payload digits denotes.
pub open spec fn vlq_sum(digits: Seq<int>) -> int
    decreases digits.len(),
{
    if digits.len() == 0 {
        0
    } else {
        digits[0] + 32 * vlq_sum(digits.drop_first())
    }
}

/// Decoding one VLQ value from the front of `s`: the signed 32-bit value it
/// denotes (the digit sum truncated into 32 bits, then inverse zig-zagged)
/// and the count of characters consumed.
pub open spec fn vlq_parse(s: Seq<u8>) -> Option<(i32, int)> {
    match vlq_digits(s) {
        None => None,
        Some(ds) => Some(
            (
                from_vql_spec(u32_as_i32((vlq_sum(ds) % 0x1_0000_0000) as u32)),
                ds.len() as int,
            ),
        ),
    }
}

/// A successful parse consumes at least one and at most all characters, and
/// every payload digit lies in 0..=31.
pub proof fn lemma_vlq_digits_bounds(s: Seq<u8>)
    requires
        vlq_digits(s) is Some,
    ensures
        1 <= vlq_digits(s)->Some_0.len() <= s.len(),
        forall|j: int|
            0 <= j < vlq_digits(s)->Some_0.len() ==> 0 <= #[trigger] vlq_digits(s)->Some_0[j]
                < 32,
    decreases s.len(),
{
    let d = base64::value_of_digit(s[0]);
    if d >= 32 {
        lemma_vlq_digits_bounds(s.drop_first());
    }
}

/**
 * Returns the base 64 VLQ encoded value.
 */
pub fn encode(value: i32) -> (r: Option<Vec<u8>>)
    ensures
        r matches Some(encoded) && encoded@ == vlq_bytes(to_vql_spec(value) as int),
{
    let z: i32 = to_vql(value);
    let mut encoded: Vec<u8> = Vec::new();
    if z < 0 {
        let zu: u32 = #[verifier::truncate] (z as u32);
        proof {
            lemma_i32_as_u32(z);
            vstd::arithmetic::div_mod::lemma_mod_multiples_vanish(0x800_0000, z as int, 32);
        }
        let d: u32 = zu % 32;
        let c: u8 = match base64::encode(d as i32) {
            Some(c) => c,
            None => {
                proof {
                    assert(false);
                }
                0
            },
        };
        encoded.push(c);
        assert(encoded@ =~= vlq_bytes(z as int));
        Some(encoded)
    } else {
        let ghost z0: int = z as int;
        let mut vlq: u32 = z as u32;
        loop
            invariant_except_break
                vlq_bytes(z0) =~= encoded@ + vlq_bytes(vlq as int),
            ensures
                encoded@ == vlq_bytes(z0),
            decreases vlq,
        {
            let digit_v: u32 = vlq % 32;
            let ghost v_before: u32 = vlq;
            vlq = vlq / 32;
            proof {
                vstd::arithmetic::div_mod::lemma_fundamental_div_mod(v_before as int, 32);
                if v_before >= 32 {
                    vstd::arithmetic::div_mod::lemma_div_pos_is_pos(v_before as int, 32);
                    vstd::arithmetic::div_mod::lemma_div_is_strictly_smaller(v_before as int, 32);
                } else {
                    vstd::arithmetic::div_mod::lemma_basic_div(v_before as int, 32);
                    vstd::arithmetic::div_mod::lemma_small_mod(v_before as nat, 32);
                }
            }
            let digit_c: u32 = if vlq > 0 {
                digit_v + 32
            } else {
                digit_v
            };
            let c: u8 = match base64::encode(digit_c as i32) {
                Some(c) => c,
                None => {
                    proof {
                        assert(false);
                    }
                    0
                },
            };
            encoded.push(c);
            if vlq == 0 {
                break;
            }
            proof {
                assert(vlq_bytes(v_before as int) =~= seq![c] + vlq_bytes(vlq as int));
            }
        }
        Some(encoded)
    }
}

/// 32 raised to the power `k`: the weight of the `k`-th payload digit.
pub open spec fn pow32(k: nat) -> nat
    decreases k,
{
    if k == 0 {
        1
    } else {
        32 * pow32((k - 1) as nat)
    }
}

/// The first `i` characters of `s` are alphabet digits carrying the
/// continuation bit.
pub open spec fn all_continuation(s: Seq<u8>, i: int) -> bool {
    forall|j: int|
        0 <= j < i ==> base64::is_base64_digit(#[trigger] s[j]) && base64::value_of_digit(s[j])
            >= 32
}

/// The weighted sum of the payloads of the first `i` characters of `s`.
pub open spec fn payload_prefix_sum(s: Seq<u8>, i: int) -> int
    decreases i,
{
    if i <= 0 {
        0
    } else {
        payload_prefix_sum(s, i - 1) + (base64::value_of_digit(s[i - 1]) % 32) * pow32(
            (i - 1) as nat,
        )
    }
}

/// Shifting the prefix sum across the first character: the sum over
/// `i + 1` characters is the first payload plus 32 times the sum over the
/// next `i`.
proof fn lemma_prefix_sum_shift(s: Seq<u8>, i: int)
    requires
        0 <= i,
        i + 1 <= s.len(),
    ensures
        payload_prefix_sum(s, i + 1) == (base64::value_of_digit(s[0]) % 32) + 32
            * payload_prefix_sum(s.drop_first(), i),
    decreases i,
{
    if i == 0 {
        assert(payload_prefix_sum(s, 0) == 0);
        assert(payload_prefix_sum(s.drop_first(), 0) == 0);
        assert(pow32(0) == 1);
        assert(payload_prefix_sum(s, 1) == payload_prefix_sum(s, 0) + (base64::value_of_digit(
            s[0],
        ) % 32) * pow32(0));
    } else {
        lemma_prefix_sum_shift(s, i - 1);
        assert(s.drop_first()[i - 1] == s[i]);
        let p = base64::value_of_digit(s[i]) % 32;
        assert(p * pow32(i as nat) == 32 * (p * pow32((i - 1) as nat))) by {
            assert(pow32(i as nat) == 32 * pow32((i - 1) as nat));
            vstd::arithmetic::mul::lemma_mul_is_associative(p, 32, pow32((i - 1) as nat) as int);
            vstd::arithmetic::mul::lemma_mul_is_commutative(p, 32);
            vstd::arithmetic::mul::lemma_mul_is_associative(32, p, pow32((i - 1) as nat) as int);
        }
    }
}

/// When the first `k` characters carry the continuation bit and character
/// `k` terminates, the digits of the value are exactly those payloads.
proof fn lemma_vlq_digits_structure(s: Seq<u8>, k: int)
    requires
        0 <= k < s.len(),
        all_continuation(s, k),
        base64::is_base64_digit(s[k]),
        base64::value_of_digit(s[k]) < 32,
    ensures
        vlq_digits(s) matches Some(ds) && ds.len() == k + 1 && vlq_sum(ds)
            == payload_prefix_sum(s, k + 1),
    decreases k,
{
    if k == 0 {
        let ds = vlq_digits(s)->Some_0;
        assert(ds.drop_first() =~= Seq::<int>::empty());
        assert(vlq_sum(Seq::<int>::empty()) == 0);
        assert(vlq_sum(ds) == base64::value_of_digit(s[0]) + 32 * vlq_sum(ds.drop_first()));
        assert(payload_prefix_sum(s, 0) == 0);
        assert(pow32(0) == 1);
        assert(payload_prefix_sum(s, 1) == payload_prefix_sum(s, 0) + (base64::value_of_digit(
            s[0],
        ) % 32) * pow32(0));
        vstd::arithmetic::div_mod::lemma_small_mod(
            base64::value_of_digit(s[0]) as nat,
            32,
        );
    } else {
        let tail = s.drop_first();
        assert forall|j: int| 0 <= j < k - 1 implies base64::is_base64_digit(#[trigger] tail[j])
            && base64::value_of_digit(tail[j]) >= 32 by {
            assert(tail[j] == s[j + 1]);
        }
        assert(tail[k - 1] == s[k]);
        lemma_vlq_digits_structure(tail, k - 1);
        let d0 = base64::value_of_digit(s[0]);
        let rest = vlq_digits(tail)->Some_0;
        let ds = vlq_digits(s)->Some_0;
        assert(ds =~= seq![d0 - 32] + rest);
        assert(ds.drop_first() =~= rest);
        assert(vlq_sum(ds) == (d0 - 32) + 32 * vlq_sum(rest));
        lemma_prefix_sum_shift(s, k);
        assert(d0 - 32 == d0 % 32) by {
            vstd::arithmetic::div_mod::lemma_mod_multiples_vanish(1, d0 - 32, 32);
            vstd::arithmetic::div_mod::lemma_small_mod((d0 - 32) as nat, 32);
        }
    }
}

/// When the first `k` characters carry the continuation bit and the input
/// ends, or leaves the alphabet, at `k`, no value can be decoded.
proof fn lemma_vlq_digits_none(s: Seq<u8>, k: int)
    requires
        0 <= k <= s.len(),
        all_continuation(s, k),
        k == s.len() || !base64::is_base64_digit(s[k]),
    ensures
        vlq_digits(s) is None,
    decreases k,
{
    if s.len() == 0 {
    } else if k == 0 {
    } else {
        let tail = s.drop_first();
        assert forall|j: int| 0 <= j < k - 1 implies base64::is_base64_digit(#[trigger] tail[j])
            && base64::value_of_digit(tail[j]) >= 32 by {
            assert(tail[j] == s[j + 1]);
        }
        if k < s.len() {
            assert(tail[k - 1] == s[k]);
        }
        lemma_vlq_digits_none(tail, k - 1);
    }
}

/// Wrapping addition on `u32` is addition modulo 2^32.
proof fn lemma_wrapping_add_mod(a: u32, b: u32)
    ensures
        vstd::wrapping::u32_specs::wrapping_add(a, b) == (a + b) % 0x1_0000_0000,
{
    if a + b > u32::MAX {
        assert((a + b) % 0x1_0000_0000 == (a + b - 0x1_0000_0000) % 0x1_0000_0000) by {
            vstd::arithmetic::div_mod::lemma_mod_sub_multiples_vanish(a + b, 0x1_0000_0000);
        }
        vstd::arithmetic::div_mod::lemma_small_mod((a + b - 0x1_0000_0000) as nat, 0x1_0000_0000);
    } else {
        vstd::arithmetic::div_mod::lemma_small_mod((a + b) as nat, 0x1_0000_0000);
    }
}

/*
 * Decodes the next base 64 VLQ value from the given string and returns the
 * value and the count of characters read.
 */
pub fn decode(encoded: &[u8]) -> (r: Option<(i32, usize)>)
    ensures
        match vlq_parse(encoded@) {
            None => r is None,
            Some((value, consumed)) => r == Some((value, consumed as usize)),
        },
{
    let ghost s = encoded@;
    let mut result: u32 = 0;
    let mut mult: u32 = 1;
    let mut i: usize = 0;
    while i < encoded.len()
        invariant
            0 <= i <= s.len(),
            s == encoded@,
            all_continuation(s, i as int),
            result == payload_prefix_sum(s, i as int) % 0x1_0000_0000,
            mult == pow32(i as nat) % 0x1_0000_0000,
        decreases s.len() - i,
    {
        let c: u8 = encoded[i];
        let digit: i32 = match base64::decode(c) {
            Some(d) => d,
            None => {
                proof {
                    lemma_vlq_digits_none(s, i as int);
                }
                return None;
            },
        };
        let du: u32 = digit as u32;
        let payload: u32 = du % 32;
        let ghost result_before = result;
        let ghost m: int = 0x1_0000_0000;
        result = result.wrapping_add(payload.wrapping_mul(mult));
        proof {
            let p: int = base64::value_of_digit(s[i as int]) % 32;
            assert(payload == p) by {
                vstd::arithmetic::div_mod::lemma_mod_bound(
                    base64::value_of_digit(s[i as int]),
                    32,
                );
            }
            let w: nat = pow32(i as nat);
            assert(payload.wrapping_mul(mult) == (p * w) % m) by {
                vstd::arithmetic::div_mod::lemma_mul_mod_noop_right(p, w as int, m);
            }
            lemma_wrapping_add_mod(result_before, payload.wrapping_mul(mult));
            assert(result == (payload_prefix_sum(s, i as int) + p * w) % m) by {
                vstd::arithmetic::div_mod::lemma_add_mod_noop(
                    payload_prefix_sum(s, i as int),
                    p * w,
                    m,
                );
            }
            assert(payload_prefix_sum(s, i + 1) == payload_prefix_sum(s, i as int) + p * w);
        }
        if du < 32 {
            proof {
                lemma_vlq_digits_structure(s, i as int);
                lemma_u32_as_i32(result);
            }
            let value: i32 = from_vql(#[verifier::truncate] (result as i32));
            return Some((value, i + 1));
        }
        let ghost mult_before = mult;
        mult = mult.wrapping_mul(32);
        proof {
            let m: int = 0x1_0000_0000;
            assert(mult == (32 * (pow32(i as nat) as int)) % m) by {
                vstd::arithmetic::div_mod::lemma_mul_mod_noop_right(32, pow32(i as nat) as int, m);
                vstd::arithmetic::mul::lemma_mul_is_commutative(
                    mult_before as int,
                    32,
                );
            }
        }
        i = i + 1;
    }
    proof {
        lemma_vlq_digits_none(s, i as int);
    }
    None
}

/// The digits of an encoding reassemble to the encoded value: for any
/// non-negative zig-zagged value, decoding the character sequence of
/// `vlq_bytes` yields payload digits summing back to that value.
pub proof fn lemma_vlq_bytes_decode(z: int)
    requires
        0 <= z,
    ensures
        vlq_bytes(z).len() >= 1,
        vlq_digits(vlq_bytes(z)) matches Some(ds) && ds.len() == vlq_bytes(z).len() && vlq_sum(ds)
            == z,
    decreases z,
{
    let bytes = vlq_bytes(z);
    if z < 32 {
        base64::lemma_digit_round_trip_value(z);
        let ds = vlq_digits(bytes)->Some_0;
        assert(ds =~= seq![z]);
        assert(ds.drop_first() =~= Seq::<int>::empty());
        assert(vlq_sum(Seq::<int>::empty()) == 0);
    } else {
        vstd::arithmetic::div_mod::lemma_div_pos_is_pos(z, 32);
        vstd::arithmetic::div_mod::lemma_div_is_strictly_smaller(z, 32);
        vstd::arithmetic::div_mod::lemma_mod_bound(z, 32);
        lemma_vlq_bytes_decode(z / 32);
        base64::lemma_digit_round_trip_value(z % 32 + 32);
        let tail = vlq_bytes(z / 32);
        assert(bytes[0] == base64::digit_of_value(z % 32 + 32));
        assert(bytes.drop_first() =~= tail);
        let rest = vlq_digits(tail)->Some_0;
        let ds = vlq_digits(bytes)->Some_0;
        assert(ds =~= seq![z % 32] + rest);
        assert(ds.drop_first() =~= rest);
        assert(vlq_sum(ds) == z % 32 + 32 * vlq_sum(rest));
        vstd::arithmetic::div_mod::lemma_fundamental_div_mod(z, 32);
    }
}

/// VLQ round trip: every value whose zig-zag image fits the signed 32-bit
/// domain without truncation is returned unchanged by decoding its encoding,
/// with every encoded character consumed.
pub proof fn lemma_vlq_round_trip(value: i32)
    requires
        -0x3FFF_FFFF <= value <= 0x3FFF_FFFF,
    ensures
        vlq_parse(vlq_bytes(to_vql_spec(value) as int)) == Some(
            (value, vlq_bytes(to_vql_spec(value) as int).len() as int),
        ),
{
    let zi = zigzag(value);
    assert(0 <= zi < 0x8000_0000);
    vstd::arithmetic::div_mod::lemma_small_mod(zi as nat, 0x1_0000_0000);
    let z = to_vql_spec(value);
    assert(z == zi);
    lemma_vlq_bytes_decode(z as int);
    let ds = vlq_digits(vlq_bytes(z as int))->Some_0;
    assert(vlq_sum(ds) == z as int);
    vstd::arithmetic::div_mod::lemma_small_mod(z as nat, 0x1_0000_0000);
    lemma_zigzag_round_trip(value);
}

} // verus!
