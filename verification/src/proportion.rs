//! Fixed-point fractions of the reward pool, stored as parts per billion.

use vstd::prelude::*;

verus! {

use crate::TokenAmount;
use crate::math::lemma_part_scaled_le;
use vstd::arithmetic::mul::lemma_mul_inequality;

/// The number of parts in the unit fraction: proportions are held with a
/// precision of one part per billion.
pub const BILLION: u32 = 1_000_000_000;

/// A fraction of the settlement pool in `[0, 1]`, as parts per billion.
#[derive(Clone, Copy, Debug, PartialEq, Eq, Structural)]
pub struct Proportion {
    pub parts: u32,
}

/// The denominator actually used when forming a ratio: a zero total is
/// replaced by one, so that a ratio over an all-zero round is well defined
/// (every numerator is then zero as well).
pub open spec fn ratio_divisor(total: int) -> int {
    if total == 0 {
        1
    } else {
        total
    }
}

/// The parts-per-billion ratio of `points` to `total`, rounded down.
pub open spec fn ratio_parts(points: int, total: int) -> int {
    (points * BILLION) / ratio_divisor(total)
}

/// `parts / BILLION` of `amount`, rounded down (toward zero).
pub open spec fn scaled_amount(parts: int, amount: int) -> int {
    (parts * amount) / (BILLION as int)
}

impl Proportion {
    /// A proportion never exceeds the unit fraction.
    pub open spec fn wf(self) -> bool {
        self.parts <= BILLION
    }

    /// The unit fraction: the whole pool.
    pub fn one() -> (r: Proportion)
        ensures
            r.parts == BILLION,
            r.wf(),
    {
        Proportion { parts: BILLION }
    }

    /// The exact fraction `points / total`, rounded down to the nearest part
    /// per billion. The numerator never exceeds the denominator, so the
    /// result is a well-formed proportion.
    pub fn from_rational(points: u64, total: u128) -> (r: Proportion)
        requires
            points as int <= ratio_divisor(total as int),
        ensures
            r.parts == ratio_parts(points as int, total as int),
            r.wf(),
    {
        let divisor: u128 = if total == 0 {
            1
        } else {
            total
        };
        proof {
            lemma_mul_inequality(points as int, u64::MAX as int, BILLION as int);
            lemma_part_scaled_le(points as int, divisor as int, BILLION as int);
        }
        let parts128: u128 = (points as u128 * BILLION as u128) / divisor;
        Proportion { parts: parts128 as u32 }
    }

    /// This proportion of `amount`, rounded down; never exceeds `amount`.
    pub fn mul_floor(self, amount: TokenAmount) -> (r: TokenAmount)
        requires
            self.wf(),
        ensures
            r == scaled_amount(self.parts as int, amount as int),
            r <= amount,
    {
        proof {
            lemma_mul_inequality(self.parts as int, BILLION as int, amount as int);
            lemma_part_scaled_le(self.parts as int, BILLION as int, amount as int);
        }
        ((self.parts as u128 * amount as u128) / BILLION as u128) as u64
    }
}

} // verus!
