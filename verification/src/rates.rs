//! The chance of a rare outcome at each pity level.

use vstd::prelude::*;
use crate::prob::UNIT;

verus! {

/// The number of pity levels: a pull is made at a level from `0` to `PITY_LEVELS - 1`.
pub const PITY_LEVELS: usize = 99;

/// The step of the rate table, two hundredths.
pub const RATE_STEP: u64 = 20_000_000_000_000_000;

/// The chance of a rare outcome on a pull made at pity level `level`: two hundredths
/// on the first fifty levels, two hundredths more on each level after them, and
/// certainty from the last level on.
pub open spec fn rate(level: int) -> nat {
    if level < 50 {
        RATE_STEP as nat
    } else if level < 98 {
        ((level - 48) * RATE_STEP) as nat
    } else {
        UNIT as nat
    }
}

/// The table holds probabilities, never falls, and ends in certainty.
pub proof fn lemma_rate_table(a: int, b: int)
    requires
        a <= b,
    ensures
        0 < rate(a) <= rate(b) <= UNIT,
        rate(PITY_LEVELS - 1) == UNIT,
{
}

/// Looks up the table at `level`.
pub fn pity_rate(level: usize) -> (r: u64)
    requires
        level < PITY_LEVELS,
    ensures
        r == rate(level as int),
        0 < r <= UNIT,
{
    if level < 50 {
        RATE_STEP
    } else {
        (level as u64 - 48) * RATE_STEP
    }
}

} // verus!
