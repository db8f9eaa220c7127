//! Fixed-point arithmetic for layout coordinates.
//!
//! Coordinates are stored in micro-units: one layout unit is `MICRO`
//! micro-units. Every rescaling or grid computation of the pipeline is a
//! rounded rational division, performed exactly on integers.

use vstd::arithmetic::div_mod::{lemma_div_is_ordered, lemma_div_pos_is_pos, lemma_multiply_divide_le};
use vstd::prelude::*;

verus! {

/// Number of micro-units in one layout unit.
pub const MICRO: i64 = 1_000_000;

/// Largest magnitude accepted for a raw (unscaled) coordinate, in
/// micro-units. Bounding raw inputs keeps every later computation of the
/// pipeline inside `i64`/`i128` ranges.
pub const COORD_LIMIT: i64 = 1_000_000_000_000_000;

/// Magnitude bound that the operands of [`rounded_div`] must respect so that
/// its intermediate products stay far away from the `i128` range limits.
pub const DIV_OPERAND_LIMIT: i128 = 1_000_000_000_000_000_000_000_000_000_000;

/// Mathematical rounded division: `a / b` rounded to the nearest integer,
/// with halves rounded away from zero, for a positive divisor `b`.
pub open spec fn round_div(a: int, b: int) -> int
    recommends
        b >= 1,
{
    if a >= 0 {
        (2 * a + b) / (2 * b)
    } else {
        -((2 * (-a) + b) / (2 * b))
    }
}

/// The quotient of a rounded division of nonnegative operands is bounded by
/// any `k` with `a <= k * b`, plus one for the rounding.
pub proof fn lemma_round_div_bound(a: int, b: int, k: int)
    requires
        0 <= a,
        1 <= b,
        0 <= k,
        a <= k * b,
    ensures
        0 <= round_div(a, b) <= k + 1,
{
    assert(2 * a + b <= 2 * b * (k + 1)) by (nonlinear_arith)
        requires
            a <= k * b,
            1 <= b,
    ;
    lemma_multiply_divide_le(2 * a + b, 2 * b, k + 1);
    lemma_div_pos_is_pos(2 * a + b, 2 * b);
}

/// Magnitude bound for a rounded division of either sign.
pub proof fn lemma_round_div_magnitude(a: int, b: int, k: int)
    requires
        1 <= b,
        0 <= k,
        -(k * b) <= a <= k * b,
    ensures
        -(k + 1) <= round_div(a, b) <= k + 1,
{
    if a >= 0 {
        lemma_round_div_bound(a, b, k);
    } else {
        lemma_round_div_bound(-a, b, k);
    }
}

/// Rounded division is monotone in the numerator.
pub proof fn lemma_round_div_ordered(a1: int, a2: int, b: int)
    requires
        1 <= b,
        a1 <= a2,
    ensures
        round_div(a1, b) <= round_div(a2, b),
{
    if a1 >= 0 {
        lemma_div_is_ordered(2 * a1 + b, 2 * a2 + b, 2 * b);
    } else if a2 < 0 {
        lemma_div_is_ordered(2 * (-a2) + b, 2 * (-a1) + b, 2 * b);
    } else {
        lemma_div_pos_is_pos(2 * a2 + b, 2 * b);
        lemma_div_pos_is_pos(2 * (-a1) + b, 2 * b);
    }
}

/// Rounded division recovers an exact half: `round_div(2 * c, 2) == c`.
pub proof fn lemma_round_div_half_exact(c: int)
    ensures
        round_div(2 * c, 2) == c,
{
    if c >= 0 {
        vstd::arithmetic::div_mod::lemma_fundamental_div_mod_converse(4 * c + 2, 4, c, 2);
    } else {
        vstd::arithmetic::div_mod::lemma_fundamental_div_mod_converse(4 * (-c) + 2, 4, -c, 2);
    }
}

/// Executable rounded division on `i128`, exact with respect to
/// [`round_div`]. The operand bound leaves ample room below the `i128`
/// limits for the doubled intermediates.
pub fn rounded_div(a: i128, b: i128) -> (r: i128)
    requires
        1 <= b <= DIV_OPERAND_LIMIT,
        -DIV_OPERAND_LIMIT <= a <= DIV_OPERAND_LIMIT,
    ensures
        r == round_div(a as int, b as int),
{
    if a >= 0 {
        (2 * a + b) / (2 * b)
    } else {
        proof {
            lemma_div_pos_is_pos(2 * (-a as int) + b, 2 * b);
            assert(-a as int <= (-a as int) * b) by (nonlinear_arith)
                requires
                    a < 0,
                    1 <= b,
            ;
            lemma_round_div_bound(-a as int, b as int, -a as int);
        }
        -((2 * (-a) + b) / (2 * b))
    }
}

} // verus!
