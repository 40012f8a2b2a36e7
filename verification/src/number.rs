//! Numbers are IEEE-754 binary64 values carried as their bit patterns. What
//! the bit layout alone decides — NaN-ness, zero-ness, equality, ordering,
//! negation, whole-number values — is computed here on the bits; rounding arithmetic, decimal
//! conversion and formatting are the host's (see `interp::Host`).

use vstd::prelude::*;
use vstd::arithmetic::power2::{pow2, lemma2_to64, lemma_pow2_strictly_increases};
use vstd::bits::{lemma_u64_pow2_no_overflow, lemma_u64_shl_is_mul};
use crate::host::Order;

verus! {

pub const SIGN_BIT: u64 = 0x8000_0000_0000_0000;

pub const EXPONENT_BITS: u64 = 0x7ff0_0000_0000_0000;

pub const MANTISSA_BITS: u64 = 0x000f_ffff_ffff_ffff;

/// A NaN: all exponent bits set and a nonzero mantissa.
pub open spec fn is_nan_bits(b: u64) -> bool {
    (b & EXPONENT_BITS) == EXPONENT_BITS && (b & MANTISSA_BITS) != 0
}

/// `+0` or `-0`: everything but the sign bit clear.
pub open spec fn is_zero_bits(b: u64) -> bool {
    (b & 0x7fff_ffff_ffff_ffff) == 0
}

/// IEEE equality: a NaN equals nothing, `+0` equals `-0`, otherwise the
/// values are equal exactly when their encodings are.
pub open spec fn num_eq(a: u64, b: u64) -> bool {
    !is_nan_bits(a) && !is_nan_bits(b) && (a == b || (is_zero_bits(a) && is_zero_bits(b)))
}

pub fn is_nan(b: u64) -> (r: bool)
    ensures
        r == is_nan_bits(b),
{
    (b & EXPONENT_BITS) == EXPONENT_BITS && (b & MANTISSA_BITS) != 0
}

pub fn is_zero(b: u64) -> (r: bool)
    ensures
        r == is_zero_bits(b),
{
    (b & 0x7fff_ffff_ffff_ffff) == 0
}

/// IEEE equality of two doubles.
pub fn numbers_equal(a: u64, b: u64) -> (r: bool)
    ensures
        r == num_eq(a, b),
{
    !is_nan(a) && !is_nan(b) && (a == b || (is_zero(a) && is_zero(b)))
}

/// The biased exponent field.
pub open spec fn exponent_of(b: u64) -> u64 {
    (b >> 52u64) & 0x7ffu64
}

/// The significand of a normal double, its hidden bit included.
pub open spec fn significand_of(b: u64) -> int {
    (b & MANTISSA_BITS) + 0x10_0000_0000_0000int
}

/// The value of a double that denotes a whole number that is not negative
/// (`-0` included), saturated to `u64`; `None` for every other double:
/// negative, with a fraction, infinite or NaN. A normal double is its
/// significand times 2 to the power of its exponent less 1075; one below 1
/// (a subnormal among them) is no whole number unless it is zero.
pub open spec fn whole_of(b: u64) -> Option<u64> {
    let e = exponent_of(b) as int;
    let s = significand_of(b);
    if is_zero_bits(b) {
        Some(0)
    } else if b >= SIGN_BIT || e == 0x7ff || e < 1023 {
        None
    } else if e >= 1075 {
        if e - 1075 >= 12 {
            Some(u64::MAX)
        } else {
            Some((s * pow2((e - 1075) as nat)) as u64)
        }
    } else if s % (pow2((1075 - e) as nat) as int) == 0 {
        Some((s / (pow2((1075 - e) as nat) as int)) as u64)
    } else {
        None
    }
}

/// The whole number that a double denotes (see `whole_of`).
pub fn whole_number(b: u64) -> (r: Option<u64>)
    ensures
        r == whole_of(b),
{
    if is_zero(b) {
        return Some(0);
    }
    if b >= SIGN_BIT {
        return None;
    }
    let e: u64 = (b >> 52u64) & 0x7ffu64;
    proof {
        assert(((b >> 52u64) & 0x7ffu64) <= 0x7ffu64) by (bit_vector);
        assert((b & 0x000f_ffff_ffff_ffffu64) <= 0x000f_ffff_ffff_ffffu64) by (bit_vector);
    }
    if e == 0x7ff || e < 1023 {
        return None;
    }
    let s: u64 = (b & MANTISSA_BITS) + 0x10_0000_0000_0000u64;
    if e >= 1075 {
        let sh: u64 = e - 1075;
        if sh >= 12 {
            return Some(u64::MAX);
        }
        proof {
            lemma2_to64();
            if sh < 11 {
                lemma_pow2_strictly_increases(sh as nat, 11);
            }
            let p = pow2(sh as nat);
            assert(s * p <= 0x1f_ffff_ffff_ffffint * 2048) by (nonlinear_arith)
                requires
                    s <= 0x1f_ffff_ffff_ffffint,
                    0 <= p <= 2048,
            ;
            lemma_u64_shl_is_mul(s, sh);
        }
        return Some(s << sh);
    }
    let sh: u64 = 1075 - e;
    proof {
        lemma_u64_pow2_no_overflow(sh as nat);
        lemma_u64_shl_is_mul(1, sh);
    }
    let d: u64 = 1u64 << sh;
    if s % d == 0 {
        Some(s / d)
    } else {
        None
    }
}

/// How two doubles order: `None` when either is a NaN; `+0` and `-0` are
/// equal; otherwise a negative number is below a positive one, and two of
/// one sign order by magnitude, which is the order of their encodings
/// (reversed for negative numbers).
pub open spec fn num_order(a: u64, b: u64) -> Option<Order> {
    if is_nan_bits(a) || is_nan_bits(b) {
        None
    } else if num_eq(a, b) {
        Some(Order::Equal)
    } else {
        let less = if a >= SIGN_BIT && b >= SIGN_BIT {
            a > b
        } else if a < SIGN_BIT && b < SIGN_BIT {
            a < b
        } else {
            a >= SIGN_BIT
        };
        if less {
            Some(Order::Less)
        } else {
            Some(Order::Greater)
        }
    }
}

/// The order of two doubles (see `num_order`).
pub fn number_order(a: u64, b: u64) -> (r: Option<Order>)
    ensures
        r == num_order(a, b),
{
    if is_nan(a) || is_nan(b) {
        return None;
    }
    if numbers_equal(a, b) {
        return Some(Order::Equal);
    }
    let less = if a >= SIGN_BIT && b >= SIGN_BIT {
        a > b
    } else if a < SIGN_BIT && b < SIGN_BIT {
        a < b
    } else {
        a >= SIGN_BIT
    };
    if less {
        Some(Order::Less)
    } else {
        Some(Order::Greater)
    }
}

} // verus!
