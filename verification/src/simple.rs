//! Banners without focus: a chain over counts of targets and pity levels.

use vstd::prelude::*;
use crate::budget::{allowance, conv_size, underfunded, window};
use crate::combiner::{Prepared, Rejection};
use crate::prob::{
    entries, lemma_scaled_le, lemma_scaled_split, lemma_scaled_split_loss, lemma_scaled_unit,
    lemma_scaled_zero, scaled, times, total, UNIT,
};
use crate::rates::{pity_rate, rate, PITY_LEVELS};
use crate::sums::{
    lemma_sum_eq, lemma_sum_mono, lemma_sum_single, lemma_sum_term, lemma_sum_zero, sum_below,
};

verus! {

/// One banner: how many targets are wanted from it, the chance that a rare outcome
/// is the target, and the pulls that only this banner can use.
#[derive(Debug, Clone, Copy)]
pub struct Banner {
    /// The count of targets wanted.
    pub target: usize,
    /// The chance, in units of `1 / UNIT`, that a rare outcome is the target.
    pub subrate: u64,
    /// The pulls granted for this banner alone.
    pub bonus_pulls: usize,
}

/// The part of the mass `x` at pity level `level` that sees no rare outcome on the
/// next pull.
pub open spec fn kept(x: nat, level: int) -> nat {
    scaled(x, (UNIT - rate(level)) as nat)
}

/// The part of the mass `x` at pity level `level` that sees a rare outcome on the
/// next pull.
pub open spec fn rare(x: nat, level: int) -> nat {
    scaled(x, rate(level))
}

/// The part of the mass `x` at pity level `level` whose next pull gives the target.
pub open spec fn wanted(x: nat, level: int, subrate: nat) -> nat {
    scaled(rare(x, level), subrate)
}

/// The part of the mass `x` at pity level `level` whose next pull gives a rare
/// outcome other than the target.
pub open spec fn unwanted(x: nat, level: int, subrate: nat) -> nat {
    scaled(rare(x, level), (UNIT - subrate) as nat)
}

/// The mass of the state with `count` targets and pity level `pity` after `pulls`
/// pulls, in a chain that starts with nothing collected at pity level zero and that
/// no longer pulls once `target` targets are collected.
pub open spec fn mass(target: nat, subrate: nat, pulls: nat, count: int, pity: int) -> nat
    decreases pulls, 0nat, 0nat,
{
    if count < 0 || count > target || pity < 0 || pity > PITY_LEVELS {
        0
    } else if pulls == 0 {
        if count == 0 && pity == 0 {
            UNIT as nat
        } else {
            0
        }
    } else if pity == 0 {
        resets(target, subrate, (pulls - 1) as nat, count, PITY_LEVELS as nat)
    } else if count < target {
        kept(mass(target, subrate, (pulls - 1) as nat, count, pity - 1), pity - 1)
    } else {
        0
    }
}

/// The mass that the pull after `pulls` pulls moves to pity level zero with `count`
/// targets, from the pity levels below `levels`: rare outcomes other than the target
/// at `count` targets, and targets at one fewer.
pub open spec fn resets(target: nat, subrate: nat, pulls: nat, count: int, levels: nat) -> nat
    decreases pulls, 1nat, levels,
{
    if levels == 0 {
        0
    } else {
        let level = levels - 1;
        resets(target, subrate, pulls, count, level as nat) + (if count < target {
            unwanted(mass(target, subrate, pulls, count, level), level, subrate)
        } else {
            0
        }) + wanted(mass(target, subrate, pulls, count - 1, level), level, subrate)
    }
}

/// The probability that the `target`-th target comes on pull number `pulls` exactly.
pub open spec fn reached(target: nat, subrate: nat, pulls: nat) -> nat {
    mass(target, subrate, pulls, target as int, 0)
}

/// The distribution as a function of the index: entry `i` belongs to pull `i + 1`.
pub open spec fn arrivals(target: nat, subrate: nat) -> spec_fn(int) -> nat {
    |i: int| reached(target, subrate, (i + 1) as nat)
}

/// The probability that the `target`-th target comes within the first `pulls` pulls.
pub open spec fn reached_within(target: nat, subrate: nat, pulls: nat) -> nat {
    sum_below(arrivals(target, subrate), pulls)
}

/// The masses of the states with `count` targets after `pulls` pulls, by pity level.
pub open spec fn row(target: nat, subrate: nat, pulls: nat, count: int) -> spec_fn(int) -> nat {
    |pity: int| mass(target, subrate, pulls, count, pity)
}

/// The mass of all states with `count` targets after `pulls` pulls, by `count`.
pub open spec fn row_totals(target: nat, subrate: nat, pulls: nat) -> spec_fn(int) -> nat {
    |count: int| sum_below(row(target, subrate, pulls, count), (PITY_LEVELS + 1) as nat)
}

/// The mass of all states with fewer than `counts` targets after `pulls` pulls.
pub open spec fn live(target: nat, subrate: nat, pulls: nat, counts: nat) -> nat {
    sum_below(row_totals(target, subrate, pulls), counts)
}

/// The probability that the first `pulls` pulls from pity level zero all miss.
pub open spec fn spared(pulls: nat) -> nat
    decreases pulls,
{
    if pulls == 0 {
        UNIT as nat
    } else {
        kept(spared((pulls - 1) as nat), pulls - 1)
    }
}

/// By pity level, the mass with `count` targets whose next pull gives no rare outcome.
spec fn kept_terms(target: nat, subrate: nat, pulls: nat, count: int) -> spec_fn(int) -> nat {
    |level: int| kept(mass(target, subrate, pulls, count, level), level)
}

/// By pity level, the mass with `count` targets whose next pull gives the target.
pub open spec fn wanted_terms(target: nat, subrate: nat, pulls: nat, count: int) -> spec_fn(
    int,
) -> nat {
    |level: int| wanted(mass(target, subrate, pulls, count, level), level, subrate)
}

/// By pity level, the mass with `count` targets whose next pull gives a rare outcome
/// other than the target, where the target is not yet reached.
pub open spec fn unwanted_terms(target: nat, subrate: nat, pulls: nat, count: int) -> spec_fn(
    int,
) -> nat {
    |level: int|
        if count < target {
            unwanted(mass(target, subrate, pulls, count, level), level, subrate)
        } else {
            0
        }
}

/// The three parts into which a pull splits a mass do not exceed it together.
proof fn lemma_parts(x: nat, level: int, subrate: nat)
    requires
        subrate <= UNIT,
    ensures
        kept(x, level) + unwanted(x, level, subrate) + wanted(x, level, subrate) <= x,
        rare(x, level) <= x,
{
    lemma_scaled_split(x, rate(level));
    lemma_scaled_split(rare(x, level), subrate);
    lemma_scaled_le(x, rate(level));
}

/// What a pull moves to pity level zero is what the rare outcomes other than the
/// target leave at the same count, and what the targets bring from one count below.
pub proof fn lemma_resets_split(target: nat, subrate: nat, pulls: nat, count: int, levels: nat)
    ensures
        resets(target, subrate, pulls, count, levels) == sum_below(
            unwanted_terms(target, subrate, pulls, count),
            levels,
        ) + sum_below(wanted_terms(target, subrate, pulls, count - 1), levels),
    decreases levels,
{
    if levels > 0 {
        lemma_resets_split(target, subrate, pulls, count, (levels - 1) as nat);
    }
}

/// What a pull moves to pity level zero grows with the pity levels that are
/// counted.
proof fn lemma_resets_mono(target: nat, subrate: nat, pulls: nat, count: int, a: nat, b: nat)
    requires
        a <= b,
    ensures
        resets(target, subrate, pulls, count, a) <= resets(target, subrate, pulls, count, b),
    decreases b,
{
    if a < b {
        lemma_resets_mono(target, subrate, pulls, count, a, (b - 1) as nat);
    }
}

/// After a pull, the mass short of the target at a count is what moved to pity
/// level zero and what moved one pity level up.
proof fn lemma_row_shift(target: nat, subrate: nat, pulls: nat, count: int, levels: nat)
    requires
        0 <= count < target,
        levels <= PITY_LEVELS,
    ensures
        sum_below(row(target, subrate, pulls + 1, count), levels + 1) == mass(
            target,
            subrate,
            pulls + 1,
            count,
            0,
        ) + sum_below(kept_terms(target, subrate, pulls, count), levels),
    decreases levels,
{
    let f = row(target, subrate, pulls + 1, count);
    if levels == 0 {
        assert(sum_below(f, 0) == 0);
        assert(sum_below(f, 1) == sum_below(f, 0) + f(0));
    } else {
        lemma_row_shift(target, subrate, pulls, count, (levels - 1) as nat);
        assert(f(levels as int) == kept(
            mass(target, subrate, pulls, count, levels - 1),
            levels - 1,
        ));
    }
}

/// The three parts into which a pull splits the mass at a count are no more than
/// that mass.
proof fn lemma_terms_bounded(target: nat, subrate: nat, pulls: nat, count: int, levels: nat)
    requires
        subrate <= UNIT,
    ensures
        sum_below(unwanted_terms(target, subrate, pulls, count), levels) + sum_below(
            wanted_terms(target, subrate, pulls, count),
            levels,
        ) + sum_below(kept_terms(target, subrate, pulls, count), levels) <= sum_below(
            row(target, subrate, pulls, count),
            levels,
        ),
    decreases levels,
{
    if levels > 0 {
        lemma_terms_bounded(target, subrate, pulls, count, (levels - 1) as nat);
        lemma_parts(mass(target, subrate, pulls, count, levels - 1), levels - 1, subrate);
    }
}

/// No target comes from below zero targets.
pub proof fn lemma_nothing_below_zero(target: nat, subrate: nat, pulls: nat, levels: nat)
    ensures
        sum_below(wanted_terms(target, subrate, pulls, -1), levels) == 0,
{
    let f = wanted_terms(target, subrate, pulls, -1);
    assert forall|i: int| 0 <= i < levels implies #[trigger] f(i) == 0 by {
        lemma_scaled_zero(rate(i));
        lemma_scaled_zero(subrate);
    }
    lemma_sum_zero(f, levels);
}

/// One pull moves the mass of the states below `counts` targets to states below
/// `counts` targets and to the first state with `counts` targets, and adds none.
proof fn lemma_pull_conserves(target: nat, subrate: nat, pulls: nat, counts: nat)
    requires
        subrate <= UNIT,
        counts <= target,
    ensures
        live(target, subrate, pulls + 1, counts) + sum_below(
            wanted_terms(target, subrate, pulls, counts - 1),
            PITY_LEVELS as nat,
        ) <= live(target, subrate, pulls, counts),
    decreases counts,
{
    let levels = PITY_LEVELS as nat;
    if counts == 0 {
        lemma_nothing_below_zero(target, subrate, pulls, levels);
    } else {
        let count = counts - 1;
        lemma_pull_conserves(target, subrate, pulls, count as nat);
        lemma_row_shift(target, subrate, pulls, count, levels);
        lemma_resets_split(target, subrate, pulls, count, levels);
        lemma_terms_bounded(target, subrate, pulls, count, levels);
        lemma_sum_mono(row(target, subrate, pulls, count), levels, levels + 1);
        assert(row_totals(target, subrate, pulls + 1)(count) == sum_below(
            row(target, subrate, pulls + 1, count),
            levels + 1,
        ));
        assert(row_totals(target, subrate, pulls)(count) == sum_below(
            row(target, subrate, pulls, count),
            levels + 1,
        ));
    }
}

/// Before the first pull all mass is at no target.
proof fn lemma_live_start(target: nat, subrate: nat, counts: nat)
    requires
        counts <= target,
    ensures
        live(target, subrate, 0, counts) == (if counts == 0 {
            0
        } else {
            UNIT as nat
        }),
    decreases counts,
{
    if counts > 0 {
        let count = counts - 1;
        lemma_live_start(target, subrate, count as nat);
        let f = row(target, subrate, 0, count);
        let n = (PITY_LEVELS + 1) as nat;
        if count == 0 {
            lemma_sum_single(f, n, 0);
            assert(live(target, subrate, 0, 0) == 0);
        } else {
            lemma_sum_zero(f, n);
        }
        assert(row_totals(target, subrate, 0)(count) == sum_below(f, n));
    }
}

/// The mass still in play after `pulls` pulls and the mass that has reached the
/// target by then are no more than one together.
pub proof fn lemma_mass_conserved(target: nat, subrate: nat, pulls: nat)
    requires
        subrate <= UNIT,
    ensures
        live(target, subrate, pulls, target) + reached_within(target, subrate, pulls) <= UNIT,
    decreases pulls,
{
    if pulls == 0 {
        lemma_live_start(target, subrate, target);
    } else {
        let before = (pulls - 1) as nat;
        let levels = PITY_LEVELS as nat;
        lemma_mass_conserved(target, subrate, before);
        lemma_pull_conserves(target, subrate, before, target);
        lemma_resets_split(target, subrate, before, target as int, levels);
        lemma_sum_zero(unwanted_terms(target, subrate, before, target as int), levels);
        assert(arrivals(target, subrate)(before as int) == reached(target, subrate, pulls));
    }
}

/// The pity level past the last holds no mass.
proof fn lemma_no_level_beyond(target: nat, subrate: nat, pulls: nat, count: int)
    ensures
        mass(target, subrate, pulls, count, PITY_LEVELS as int) == 0,
{
    if pulls > 0 {
        lemma_scaled_zero(
            mass(target, subrate, (pulls - 1) as nat, count, PITY_LEVELS - 1),
        );
    }
}

/// The three parts into which a pull splits the mass at a count fall short of it by
/// two units for each pity level at most.
proof fn lemma_terms_loss(target: nat, subrate: nat, pulls: nat, count: int, levels: nat)
    requires
        subrate <= UNIT,
        count < target,
    ensures
        sum_below(unwanted_terms(target, subrate, pulls, count), levels) + sum_below(
            wanted_terms(target, subrate, pulls, count),
            levels,
        ) + sum_below(kept_terms(target, subrate, pulls, count), levels) + 2 * levels >= sum_below(
            row(target, subrate, pulls, count),
            levels,
        ),
    decreases levels,
{
    if levels > 0 {
        lemma_terms_loss(target, subrate, pulls, count, (levels - 1) as nat);
        let x = mass(target, subrate, pulls, count, levels - 1);
        lemma_scaled_split_loss(x, rate(levels - 1));
        lemma_scaled_split_loss(rare(x, levels - 1), subrate);
    }
}

/// One pull loses no more than two units for each pity level and each count of
/// targets below `counts`.
proof fn lemma_pull_loss(target: nat, subrate: nat, pulls: nat, counts: nat)
    requires
        subrate <= UNIT,
        counts <= target,
    ensures
        live(target, subrate, pulls + 1, counts) + sum_below(
            wanted_terms(target, subrate, pulls, counts - 1),
            PITY_LEVELS as nat,
        ) + 2 * PITY_LEVELS * counts >= live(target, subrate, pulls, counts),
    decreases counts,
{
    let levels = PITY_LEVELS as nat;
    if counts == 0 {
        lemma_nothing_below_zero(target, subrate, pulls, levels);
    } else {
        let count = counts - 1;
        lemma_pull_loss(target, subrate, pulls, count as nat);
        lemma_row_shift(target, subrate, pulls, count, levels);
        lemma_resets_split(target, subrate, pulls, count, levels);
        lemma_terms_loss(target, subrate, pulls, count, levels);
        lemma_no_level_beyond(target, subrate, pulls, count);
        let before = row(target, subrate, pulls, count);
        assert(sum_below(before, levels + 1) == sum_below(before, levels) + before(
            levels as int,
        ));
        assert(row_totals(target, subrate, pulls + 1)(count) == sum_below(
            row(target, subrate, pulls + 1, count),
            levels + 1,
        ));
        assert(row_totals(target, subrate, pulls)(count) == sum_below(before, levels + 1));
    }
}

/// Rounding loses little: where a target is wanted, the mass still in play after
/// `pulls` pulls and the mass that has reached the target by then fall short of one
/// by no more than two units for each pull, pity level and count of targets below
/// the target.
pub proof fn lemma_mass_nearly_conserved(target: nat, subrate: nat, pulls: nat)
    requires
        subrate <= UNIT,
        target >= 1,
    ensures
        live(target, subrate, pulls, target) + reached_within(target, subrate, pulls) + 2
            * PITY_LEVELS * target * pulls >= UNIT,
    decreases pulls,
{
    let step = 2 * PITY_LEVELS * target;
    if pulls == 0 {
        lemma_live_start(target, subrate, target);
        assert(step * 0 == 0);
    } else {
        let before = (pulls - 1) as nat;
        let levels = PITY_LEVELS as nat;
        lemma_mass_nearly_conserved(target, subrate, before);
        lemma_pull_loss(target, subrate, before, target);
        lemma_resets_split(target, subrate, before, target as int, levels);
        lemma_sum_zero(unwanted_terms(target, subrate, before, target as int), levels);
        assert(arrivals(target, subrate)(before as int) == reached(target, subrate, pulls));
        assert(step * pulls == step * before + step) by (nonlinear_arith)
            requires
                pulls == before + 1,
        ;
    }
}

/// No state holds more than probability one.
pub proof fn lemma_mass_bounded(target: nat, subrate: nat, pulls: nat, count: int, pity: int)
    requires
        subrate <= UNIT,
    ensures
        mass(target, subrate, pulls, count, pity) <= UNIT,
{
    if 0 <= count <= target && 0 <= pity <= PITY_LEVELS {
        lemma_mass_conserved(target, subrate, pulls);
        if count < target {
            let n = (PITY_LEVELS + 1) as nat;
            lemma_sum_term(row(target, subrate, pulls, count), n, pity);
            lemma_sum_term(row_totals(target, subrate, pulls), target, count);
        } else if pulls > 0 && pity == 0 {
            lemma_sum_term(arrivals(target, subrate), pulls, pulls - 1);
        }
    }
}

/// The probability of reaching the target within a budget of pulls never falls when
/// the budget grows, and never exceeds one.
pub proof fn lemma_reached_within_monotone(target: nat, subrate: nat, fewer: nat, more: nat)
    requires
        subrate <= UNIT,
        fewer <= more,
    ensures
        reached_within(target, subrate, fewer) <= reached_within(target, subrate, more) <= UNIT,
{
    lemma_sum_mono(arrivals(target, subrate), fewer, more);
    lemma_mass_conserved(target, subrate, more);
}

/// Where no target is wanted, no pull brings one.
pub proof fn lemma_no_target(subrate: nat, pulls: nat)
    requires
        pulls >= 1,
    ensures
        reached(0, subrate, pulls) == 0,
{
    let before = (pulls - 1) as nat;
    let levels = PITY_LEVELS as nat;
    lemma_resets_split(0, subrate, before, 0, levels);
    lemma_nothing_below_zero(0, subrate, before, levels);
    lemma_sum_zero(unwanted_terms(0, subrate, before, 0), levels);
}

/// Where every rare outcome is the target and one target is wanted, the mass with
/// no target is what has met no rare outcome yet.
proof fn lemma_lone_chain(pulls: nat, pity: int)
    ensures
        mass(1, UNIT as nat, pulls, 0, pity) == (if pity == pulls && pulls <= PITY_LEVELS {
            spared(pulls)
        } else {
            0
        }),
    decreases pulls,
{
    let one = UNIT as nat;
    if pulls > 0 && 0 <= pity <= PITY_LEVELS {
        let before = (pulls - 1) as nat;
        if pity == 0 {
            let levels = PITY_LEVELS as nat;
            lemma_resets_split(1, one, before, 0, levels);
            lemma_nothing_below_zero(1, one, before, levels);
            let f = unwanted_terms(1, one, before, 0);
            assert forall|i: int| 0 <= i < levels implies #[trigger] f(i) == 0 by {
                lemma_scaled_zero(rare(mass(1, one, before, 0, i), i));
            }
            lemma_sum_zero(f, levels);
        } else {
            lemma_lone_chain(before, pity - 1);
            lemma_scaled_zero((UNIT - rate(pity - 1)) as nat);
        }
    }
}

/// Where every rare outcome is the target and one target is wanted, the target
/// comes on pull `pulls` exactly when the pulls before it all missed and this one
/// did not: with the probability that `pulls - 1` pulls miss, times the rate at pity
/// level `pulls - 1`. It cannot come later than the last pity level allows.
pub proof fn lemma_certain_target(pulls: nat)
    requires
        pulls >= 1,
    ensures
        reached(1, UNIT as nat, pulls) == (if pulls <= PITY_LEVELS {
            rare(spared((pulls - 1) as nat), pulls - 1)
        } else {
            0
        }),
{
    let one = UNIT as nat;
    let before = (pulls - 1) as nat;
    let levels = PITY_LEVELS as nat;
    lemma_resets_split(1, one, before, 1, levels);
    lemma_sum_zero(unwanted_terms(1, one, before, 1), levels);
    let f = wanted_terms(1, one, before, 0);
    assert forall|i: int| 0 <= i < levels implies #[trigger] f(i) == (if i == before {
        rare(spared(before), i)
    } else {
        0
    }) by {
        lemma_lone_chain(before, i);
        lemma_scaled_unit(rare(mass(1, one, before, 0, i), i));
        lemma_scaled_zero(rate(i));
        lemma_scaled_zero(one);
    }
    if before < levels {
        lemma_sum_single(f, levels, before as int);
    } else {
        lemma_sum_zero(f, levels);
    }
}

/// Whether `grid` holds the mass of every state after `pulls` pulls: one row for
/// each count of targets, one entry for each pity level.
pub open spec fn holds(grid: Seq<Vec<u64>>, target: nat, subrate: nat, pulls: nat) -> bool {
    &&& grid.len() == target + 1
    &&& forall|count: int|
        0 <= count <= target ==> (#[trigger] grid[count]).len() == PITY_LEVELS + 1
    &&& forall|count: int, pity: int|
        0 <= count <= target && 0 <= pity <= PITY_LEVELS ==> #[trigger] grid[count][pity] == mass(
            target,
            subrate,
            pulls,
            count,
            pity,
        )
}

/// The grid before the first pull: all mass on nothing collected at pity level zero.
fn first_grid(target: usize, Ghost(subrate): Ghost<nat>) -> (grid: Vec<Vec<u64>>)
    requires
        target < usize::MAX,
    ensures
        holds(grid@, target as nat, subrate, 0),
{
    let mut grid: Vec<Vec<u64>> = Vec::new();
    let mut count: usize = 0;
    while count <= target
        invariant
            target < usize::MAX,
            count <= target + 1,
            grid.len() == count,
            forall|c: int| 0 <= c < count ==> (#[trigger] grid[c]).len() == PITY_LEVELS + 1,
            forall|c: int, p: int|
                0 <= c < count && 0 <= p <= PITY_LEVELS ==> #[trigger] grid[c][p] == mass(
                    target as nat,
                    subrate,
                    0,
                    c,
                    p,
                ),
        decreases target + 1 - count,
    {
        let mut cells: Vec<u64> = Vec::new();
        let mut pity: usize = 0;
        while pity <= PITY_LEVELS
            invariant
                pity <= PITY_LEVELS + 1,
                count <= target,
                cells.len() == pity,
                forall|p: int|
                    0 <= p < pity ==> #[trigger] cells[p] == mass(
                        target as nat,
                        subrate,
                        0,
                        count as int,
                        p,
                    ),
            decreases PITY_LEVELS + 1 - pity,
        {
            cells.push(if count == 0 && pity == 0 { UNIT } else { 0 });
            pity += 1;
        }
        grid.push(cells);
        count += 1;
    }
    grid
}

/// The masses of the states with `count` targets after one more pull.
fn next_row(
    grid: &Vec<Vec<u64>>,
    count: usize,
    target: usize,
    subrate: u64,
    Ghost(pulls): Ghost<nat>,
) -> (cells: Vec<u64>)
    requires
        holds(grid@, target as nat, subrate as nat, pulls),
        count <= target,
        subrate <= UNIT,
    ensures
        cells.len() == PITY_LEVELS + 1,
        forall|p: int|
            0 <= p <= PITY_LEVELS ==> #[trigger] cells[p] == mass(
                target as nat,
                subrate as nat,
                pulls + 1,
                count as int,
                p,
            ),
{
    let mut arrived: u64 = 0;
    let mut level: usize = 0;
    while level < PITY_LEVELS
        invariant
            level <= PITY_LEVELS,
            holds(grid@, target as nat, subrate as nat, pulls),
            count <= target,
            subrate <= UNIT,
            arrived == resets(target as nat, subrate as nat, pulls, count as int, level as nat),
        decreases PITY_LEVELS - level,
    {
        let r: u64 = pity_rate(level);
        proof {
            lemma_resets_mono(
                target as nat,
                subrate as nat,
                pulls,
                count as int,
                (level + 1) as nat,
                PITY_LEVELS as nat,
            );
            lemma_mass_bounded(target as nat, subrate as nat, pulls + 1, count as int, 0);
            lemma_scaled_zero(rate(level as int));
            lemma_scaled_zero(subrate as nat);
        }
        let ghost before = arrived as nat;
        let ghost same = mass(target as nat, subrate as nat, pulls, count as int, level as int);
        let ghost below = mass(target as nat, subrate as nat, pulls, count - 1, level as int);
        if count < target {
            let hit: u64 = times(grid[count][level], r);
            arrived = arrived + times(hit, UNIT - subrate);
        }
        let ghost between = arrived as nat;
        assert(between == before + (if count < target {
            unwanted(same, level as int, subrate as nat)
        } else {
            0
        }));
        if count > 0 {
            let hit: u64 = times(grid[count - 1][level], r);
            arrived = arrived + times(hit, subrate);
        }
        assert(arrived == between + wanted(below, level as int, subrate as nat));
        level += 1;
    }
    let mut cells: Vec<u64> = Vec::new();
    cells.push(arrived);
    let mut pity: usize = 1;
    while pity <= PITY_LEVELS
        invariant
            1 <= pity <= PITY_LEVELS + 1,
            holds(grid@, target as nat, subrate as nat, pulls),
            count <= target,
            cells.len() == pity,
            forall|p: int|
                0 <= p < pity ==> #[trigger] cells[p] == mass(
                    target as nat,
                    subrate as nat,
                    pulls + 1,
                    count as int,
                    p,
                ),
        decreases PITY_LEVELS + 1 - pity,
    {
        if count < target {
            let r: u64 = pity_rate(pity - 1);
            cells.push(times(grid[count][pity - 1], UNIT - r));
        } else {
            cells.push(0);
        }
        pity += 1;
    }
    cells
}

/// The grid after one more pull, built from the grid before it.
fn advance(grid: &Vec<Vec<u64>>, target: usize, subrate: u64, Ghost(pulls): Ghost<nat>) -> (next:
    Vec<Vec<u64>>)
    requires
        holds(grid@, target as nat, subrate as nat, pulls),
        target < usize::MAX,
        subrate <= UNIT,
    ensures
        holds(next@, target as nat, subrate as nat, pulls + 1),
{
    let mut next: Vec<Vec<u64>> = Vec::new();
    let mut count: usize = 0;
    while count <= target
        invariant
            holds(grid@, target as nat, subrate as nat, pulls),
            target < usize::MAX,
            subrate <= UNIT,
            count <= target + 1,
            next.len() == count,
            forall|c: int| 0 <= c < count ==> (#[trigger] next[c]).len() == PITY_LEVELS + 1,
            forall|c: int, p: int|
                0 <= c < count && 0 <= p <= PITY_LEVELS ==> #[trigger] next[c][p] == mass(
                    target as nat,
                    subrate as nat,
                    pulls + 1,
                    c,
                    p,
                ),
        decreases target + 1 - count,
    {
        let cells = next_row(grid, count, target, subrate, Ghost(pulls));
        next.push(cells);
        count += 1;
    }
    next
}

/// The distribution of the pull on which a banner's target count is first reached:
/// entry `i` is the probability that the `target`-th target comes on pull `i + 1`,
/// for each pull of the budget `pulls`.
pub fn banner_pdist(target: usize, pulls: usize, subrate: u64) -> (pdist: Vec<u64>)
    requires
        target < usize::MAX,
        0 < subrate <= UNIT,
    ensures
        pdist.len() == pulls,
        forall|i: int|
            0 <= i < pulls ==> #[trigger] pdist[i] == reached(
                target as nat,
                subrate as nat,
                (i + 1) as nat,
            ),
        total(pdist@) == reached_within(target as nat, subrate as nat, pulls as nat),
        total(pdist@) <= UNIT,
{
    let mut pdist: Vec<u64> = Vec::new();
    let mut grid = first_grid(target, Ghost(subrate as nat));
    let mut done: usize = 0;
    while done < pulls
        invariant
            target < usize::MAX,
            subrate <= UNIT,
            done <= pulls,
            holds(grid@, target as nat, subrate as nat, done as nat),
            pdist.len() == done,
            forall|i: int|
                0 <= i < done ==> #[trigger] pdist[i] == reached(
                    target as nat,
                    subrate as nat,
                    (i + 1) as nat,
                ),
        decreases pulls - done,
    {
        grid = advance(&grid, target, subrate, Ghost(done as nat));
        pdist.push(grid[target][0]);
        done += 1;
    }
    proof {
        lemma_sum_eq(entries(pdist@), arrivals(target as nat, subrate as nat), pulls as nat);
        lemma_mass_conserved(target as nat, subrate as nat, pulls as nat);
    }
    pdist
}

/// The bonus pulls of the banners, in their order.
pub open spec fn bonus_of(banners: Seq<Banner>) -> Seq<usize> {
    Seq::new(banners.len(), |i: int| banners[i].bonus_pulls)
}

/// Whether the banner's subrate is a probability other than zero.
pub open spec fn subrate_ok(banner: Banner) -> bool {
    0 < banner.subrate <= UNIT
}

/// The entry at `k` of the padded distribution of `banner`, whose own entries are
/// those of the first `most` pulls.
pub open spec fn entry(banner: Banner, most: int, k: int) -> nat {
    if 0 <= k < most {
        reached(banner.target as nat, banner.subrate as nat, (k + 1) as nat)
    } else {
        0
    }
}

/// Whether `p` is what the transform needs for `banners` and `pulls` shared pulls.
pub open spec fn prepared_for(p: Prepared, banners: Seq<Banner>, pulls: nat) -> bool {
    &&& p.conv_size == conv_size(pulls, bonus_of(banners))
    &&& p.window == window(pulls, bonus_of(banners))
    &&& p.pdists.len() == banners.len()
    &&& forall|i: int| 0 <= i < banners.len() ==> (#[trigger] p.pdists[i]).len() == p.conv_size
    &&& forall|i: int, k: int|
        0 <= i < banners.len() && 0 <= k < p.conv_size ==> #[trigger] p.pdists[i][k] == entry(
            banners[i],
            allowance(pulls, banners[i].bonus_pulls as nat, banners.len()),
            k,
        )
}

/// The banner as one that has no focus.
pub open spec fn without_focus(banner: Banner) -> crate::focus::Banner {
    crate::focus::Banner {
        target: banner.target,
        subrate: banner.subrate,
        bonus_pulls: banner.bonus_pulls,
        has_focus: false,
    }
}

/// Everything that combining `banners` under a budget of `pulls` shared pulls needs
/// before the transform: the distribution of each banner over the most pulls that
/// it can get, padded with zeros to the length of the convolution, that length, and
/// the number of leading entries of the convolution that lie within the budget.
pub fn prepare(banners: &Vec<Banner>, pulls: usize) -> (r: Result<Prepared, Rejection>)
    ensures
        match r {
            Ok(p) => {
                &&& banners.len() >= 1
                &&& forall|i: int| 0 <= i < banners.len() ==> subrate_ok(#[trigger] banners[i])
                &&& forall|i: int|
                    0 <= i < banners.len() ==> (#[trigger] banners[i]).target < usize::MAX
                &&& !underfunded(pulls as nat, bonus_of(banners@))
                &&& prepared_for(p, banners@, pulls as nat)
            },
            Err(Rejection::NoBanners) => banners.len() == 0,
            Err(Rejection::Subrate) => exists|i: int|
                0 <= i < banners.len() && !subrate_ok(#[trigger] banners[i]),
            Err(Rejection::Underflow) => {
                &&& forall|i: int| 0 <= i < banners.len() ==> subrate_ok(#[trigger] banners[i])
                &&& underfunded(pulls as nat, bonus_of(banners@))
            },
            Err(Rejection::Overflow) => {
                &&& banners.len() >= 1
                &&& forall|i: int| 0 <= i < banners.len() ==> subrate_ok(#[trigger] banners[i])
                &&& !underfunded(pulls as nat, bonus_of(banners@))
                &&& (conv_size(pulls as nat, bonus_of(banners@)) > usize::MAX || window(
                    pulls as nat,
                    bonus_of(banners@),
                ) > usize::MAX || exists|i: int|
                    0 <= i < banners.len() && (#[trigger] banners[i]).target == usize::MAX)
            },
        },
{
    let mut general: Vec<crate::focus::Banner> = Vec::new();
    let mut i: usize = 0;
    while i < banners.len()
        invariant
            i <= banners.len(),
            general.len() == i,
            forall|j: int| 0 <= j < i ==> #[trigger] general[j] == without_focus(banners[j]),
        decreases banners.len() - i,
    {
        let banner = banners[i];
        general.push(
            crate::focus::Banner {
                target: banner.target,
                subrate: banner.subrate,
                bonus_pulls: banner.bonus_pulls,
                has_focus: false,
            },
        );
        i += 1;
    }
    let r = crate::focus::prepare(&general, pulls);
    proof {
        assert(crate::focus::bonus_of(general@) =~= bonus_of(banners@));
        assert forall|j: int| 0 <= j < banners.len() implies (subrate_ok(#[trigger] banners[j])
            <==> crate::focus::subrate_ok(general[j])) && banners[j].target
            == general[j].target by {
            assert(general[j] == without_focus(banners[j]));
        }
        match &r {
            Ok(p) => {
                assert forall|j: int, k: int|
                    0 <= j < banners.len() && 0 <= k < p.conv_size implies #[trigger] p.pdists[j][k]
                    == entry(
                    banners[j],
                    allowance(pulls as nat, banners[j].bonus_pulls as nat, banners.len() as nat),
                    k,
                ) by {
                    assert(general[j] == without_focus(banners[j]));
                }
            },
            Err(Rejection::Subrate) => {
                let j = choose|j: int|
                    0 <= j < general.len() && !crate::focus::subrate_ok(#[trigger] general[j]);
                assert(!subrate_ok(banners[j]));
            },
            Err(Rejection::Overflow) => {
                if exists|j: int|
                    0 <= j < general.len() && (#[trigger] general[j]).target == usize::MAX {
                    let j = choose|j: int|
                        0 <= j < general.len() && (#[trigger] general[j]).target == usize::MAX;
                    assert(banners[j].target == usize::MAX);
                }
            },
            _ => {},
        }
    }
    r
}

} // verus!
