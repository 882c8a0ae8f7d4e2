//! Decimal rendering of the integers that appear in diagnostic messages.

use vstd::prelude::*;
use crate::time_overlap::{digit_char, digit_str};

verus! {

/// The decimal digit string of a non-negative integer, most significant
/// digit first, no leading zeros (a single `0` for zero).
pub open spec fn dec_spec(n: int) -> Seq<char>
    decreases n,
{
    if n < 10 {
        seq![digit_char(n)]
    } else {
        dec_spec(n / 10).push(digit_char(n % 10))
    }
}

/// The decimal rendering of any integer, with a leading minus sign when
/// negative.
pub open spec fn int_dec_spec(n: int) -> Seq<char> {
    if n < 0 {
        seq!['-'] + dec_spec(-n)
    } else {
        dec_spec(n)
    }
}

/// Renders a non-negative number in decimal.
pub fn decimal_string(n: u64) -> (r: String)
    ensures
        r@ == dec_spec(n as int),
    decreases n,
{
    if n < 10 {
        let mut r = String::new();
        r.append(digit_str(n as u32));
        proof {
            assert(r@ =~= dec_spec(n as int));
        }
        r
    } else {
        let mut r = decimal_string(n / 10);
        r.append(digit_str((n % 10) as u32));
        proof {
            assert(r@ =~= dec_spec(n as int));
        }
        r
    }
}

/// Renders a signed number in decimal.
pub fn i32_string(n: i32) -> (r: String)
    ensures
        r@ == int_dec_spec(n as int),
{
    let wide: i64 = n as i64;
    if wide < 0 {
        proof {
            reveal_strlit("-");
        }
        let mut r = String::new();
        r.append("-");
        let d = decimal_string((-wide) as u64);
        r.append(d.as_str());
        proof {
            assert(r@ =~= int_dec_spec(n as int));
        }
        r
    } else {
        decimal_string(wide as u64)
    }
}

/// Renders a machine-word count in decimal.
pub fn usize_string(n: usize) -> (r: String)
    ensures
        r@ == dec_spec(n as int),
{
    decimal_string(n as u64)
}

} // verus!
