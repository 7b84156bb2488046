//! Decimal rendering of integers. Name-table entries may be given as
//! numbers; they are resolved to their decimal string form at the point of
//! use.
use vstd::prelude::*;
use vstd::string::StringExecFns;

verus! {

/// The decimal digit character for `d` in 0..=9.
pub open spec fn dec_digit(d: int) -> char {
    if d == 0 {
        '0'
    } else if d == 1 {
        '1'
    } else if d == 2 {
        '2'
    } else if d == 3 {
        '3'
    } else if d == 4 {
        '4'
    } else if d == 5 {
        '5'
    } else if d == 6 {
        '6'
    } else if d == 7 {
        '7'
    } else if d == 8 {
        '8'
    } else {
        '9'
    }
}

/// The decimal digit sequence of `n`, most significant digit first.
pub open spec fn dec_seq(n: nat) -> Seq<char>
    decreases n,
    via dec_seq_decreases
{
    if n < 10 {
        seq![dec_digit(n as int)]
    } else {
        dec_seq(n / 10).push(dec_digit((n % 10) as int))
    }
}

#[via_fn]
proof fn dec_seq_decreases(n: nat) {
    if n >= 10 {
        vstd::arithmetic::div_mod::lemma_div_is_strictly_smaller(n as int, 10);
    }
}

/// The decimal rendering of a signed value: a minus sign before the digits
/// of the magnitude.
pub open spec fn dec_seq_signed(v: int) -> Seq<char> {
    if v < 0 {
        seq!['-'] + dec_seq((-v) as nat)
    } else {
        dec_seq(v as nat)
    }
}

/// Appends the digit character for `d` to `s`.
fn push_dec_digit(s: &mut String, d: u64)
    requires
        d < 10,
    ensures
        final(s)@ == old(s)@ + seq![dec_digit(d as int)],
{
    let part: &str = if d == 0 {
        "0"
    } else if d == 1 {
        "1"
    } else if d == 2 {
        "2"
    } else if d == 3 {
        "3"
    } else if d == 4 {
        "4"
    } else if d == 5 {
        "5"
    } else if d == 6 {
        "6"
    } else if d == 7 {
        "7"
    } else if d == 8 {
        "8"
    } else {
        "9"
    };
    proof {
        reveal_strlit("0");
        reveal_strlit("1");
        reveal_strlit("2");
        reveal_strlit("3");
        reveal_strlit("4");
        reveal_strlit("5");
        reveal_strlit("6");
        reveal_strlit("7");
        reveal_strlit("8");
        reveal_strlit("9");
        assert(part@ =~= seq![dec_digit(d as int)]);
    }
    s.append(part);
}

/// The decimal string of an unsigned 64-bit value.
pub fn u64_dec_string(n: u64) -> (s: String)
    ensures
        s@ == dec_seq(n as nat),
    decreases n,
{
    if n < 10 {
        let mut s = String::new();
        push_dec_digit(&mut s, n);
        proof {
            assert(s@ =~= dec_seq(n as nat));
        }
        s
    } else {
        proof {
            vstd::arithmetic::div_mod::lemma_div_is_strictly_smaller(n as int, 10);
            vstd::arithmetic::div_mod::lemma_mod_bound(n as int, 10);
        }
        let mut s = u64_dec_string(n / 10);
        push_dec_digit(&mut s, n % 10);
        proof {
            assert(s@ =~= dec_seq(n as nat));
        }
        s
    }
}

/// The decimal string of a signed 64-bit value.
pub fn i64_dec_string(v: i64) -> (s: String)
    ensures
        s@ == dec_seq_signed(v as int),
{
    if v >= 0 {
        u64_dec_string(v as u64)
    } else {
        let mag: u64 = if v == i64::MIN {
            9223372036854775808
        } else {
            (-v) as u64
        };
        let mut s = String::from_str("-");
        let digits = u64_dec_string(mag);
        s.append(digits.as_str());
        proof {
            reveal_strlit("-");
            assert(s@ =~= dec_seq_signed(v as int));
        }
        s
    }
}

} // verus!
