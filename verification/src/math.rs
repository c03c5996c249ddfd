//! Arithmetic facts about integer (floor) division that the settlement
//! algorithm leans on: floor division is superadditive in the numerator, and
//! a floor-divided ratio of a part to the whole never exceeds the scale.

use vstd::prelude::*;

verus! {

use vstd::arithmetic::div_mod::{
    lemma_div_is_ordered, lemma_div_multiples_vanish, lemma_div_pos_is_pos,
    lemma_fundamental_div_mod, lemma_mod_division_less_than_divisor,
};
use vstd::arithmetic::mul::{
    lemma_mul_inequality, lemma_mul_is_commutative, lemma_mul_is_distributive_add,
    lemma_mul_is_distributive_sub, lemma_mul_nonnegative,
};

/// Floor division is superadditive in the numerator:
/// rounding two shares down loses at most what rounding their sum down loses.
pub proof fn lemma_div_sum_le(a: int, b: int, d: int)
    requires
        a >= 0,
        b >= 0,
        d > 0,
    ensures
        a / d + b / d <= (a + b) / d,
{
    let qa = a / d;
    let qb = b / d;
    let q = (a + b) / d;
    lemma_fundamental_div_mod(a, d);
    lemma_fundamental_div_mod(b, d);
    lemma_fundamental_div_mod(a + b, d);
    lemma_mod_division_less_than_divisor(a, d);
    lemma_mod_division_less_than_divisor(b, d);
    lemma_mod_division_less_than_divisor(a + b, d);
    lemma_mul_is_distributive_add(d, qa, qb);
    assert(d * q - d * (qa + qb) == a % d + b % d - (a + b) % d);
    lemma_mul_is_distributive_sub(d, q, qa + qb);
    assert(d * (q - (qa + qb)) > -d);
    if q - (qa + qb) <= -1 {
        lemma_mul_inequality(q - (qa + qb), -1, d);
        lemma_mul_is_commutative(q - (qa + qb), d);
        assert(d * (q - (qa + qb)) <= -d);
        assert(false);
    }
}

/// A part of a whole, scaled and rounded down, never exceeds the scale:
/// `(x * b) / d <= b` whenever `x <= d`.
pub proof fn lemma_part_scaled_le(x: int, d: int, b: int)
    requires
        0 <= x <= d,
        d > 0,
        b >= 0,
    ensures
        0 <= (x * b) / d <= b,
{
    lemma_mul_nonnegative(x, b);
    lemma_div_pos_is_pos(x * b, d);
    lemma_mul_inequality(x, d, b);
    lemma_mul_is_commutative(d, b);
    lemma_div_is_ordered(x * b, b * d, d);
    lemma_div_multiples_vanish(b, d);
    assert((d * b) / d == b);
}

} // verus!
