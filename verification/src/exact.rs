//! The chain without focus in exact arithmetic, and how near the fixed-point chain
//! stays to it.

use vstd::prelude::*;
use crate::prob::{scaled, UNIT};
use crate::rates::{rate, PITY_LEVELS};
use crate::simple::{
    arrivals, lemma_mass_nearly_conserved, live, mass, reached, reached_within, resets, row,
    row_totals, unwanted, wanted,
};
use crate::sums::{lemma_sum_scaled_le, lemma_sum_single, lemma_sum_zero, sum_below};

verus! {

/// The denominator of the exact masses after `pulls` pulls: each pull multiplies by
/// two factors that have the denominator `UNIT`.
pub open spec fn whole(pulls: nat) -> nat
    decreases pulls,
{
    if pulls == 0 {
        1
    } else {
        whole((pulls - 1) as nat) * (UNIT as nat) * (UNIT as nat)
    }
}

/// The exact mass of the state with `count` targets and pity level `pity` after
/// `pulls` pulls, as the numerator of a fraction with the denominator `whole(pulls)`.
/// It follows the chain of `mass`, without rounding.
pub open spec fn exact_mass(target: nat, subrate: nat, pulls: nat, count: int, pity: int) -> nat
    decreases pulls, 0nat, 0nat,
{
    if count < 0 || count > target || pity < 0 || pity > PITY_LEVELS {
        0
    } else if pulls == 0 {
        if count == 0 && pity == 0 {
            1
        } else {
            0
        }
    } else if pity == 0 {
        exact_resets(target, subrate, (pulls - 1) as nat, count, PITY_LEVELS as nat)
    } else if count < target {
        exact_mass(target, subrate, (pulls - 1) as nat, count, pity - 1) * ((UNIT - rate(
            pity - 1,
        )) as nat) * (UNIT as nat)
    } else {
        0
    }
}

/// The exact mass that the pull after `pulls` pulls moves to pity level zero with
/// `count` targets, from the pity levels below `levels`, as a numerator over
/// `whole(pulls + 1)`.
pub open spec fn exact_resets(
    target: nat,
    subrate: nat,
    pulls: nat,
    count: int,
    levels: nat,
) -> nat
    decreases pulls, 1nat, levels,
{
    if levels == 0 {
        0
    } else {
        let level = levels - 1;
        exact_resets(target, subrate, pulls, count, level as nat) + (if count < target {
            exact_mass(target, subrate, pulls, count, level) * rate(level) * ((UNIT
                - subrate) as nat)
        } else {
            0
        }) + exact_mass(target, subrate, pulls, count - 1, level) * rate(level) * subrate
    }
}

/// The exact probability that the `target`-th target comes within the first `pulls`
/// pulls, as a numerator over `whole(pulls)`.
pub open spec fn exact_within(target: nat, subrate: nat, pulls: nat) -> nat
    decreases pulls,
{
    if pulls == 0 {
        0
    } else {
        exact_within(target, subrate, (pulls - 1) as nat) * (UNIT as nat) * (UNIT as nat)
            + exact_mass(
            target,
            subrate,
            pulls,
            target as int,
            0,
        )
    }
}

/// A rounded product keeps a proportion below an exact one.
proof fn lemma_under_once(m: nat, e: nat, w: nat, a: nat)
    requires
        m * w <= UNIT * e,
    ensures
        scaled(m, a) * (w * UNIT * UNIT) <= UNIT * (e * a * UNIT),
{
    let u = UNIT as nat;
    let q = scaled(m, a);
    assert(q * u <= m * a) by (nonlinear_arith)
        requires
            q == (m * a) / u,
            u > 0,
    ;
    assert(q * (w * u * u) == (q * u) * (w * u)) by (nonlinear_arith);
    assert((q * u) * (w * u) <= (m * a) * (w * u)) by (nonlinear_arith)
        requires
            q * u <= m * a,
    ;
    assert((m * a) * (w * u) == (m * w) * (a * u)) by (nonlinear_arith);
    assert((m * w) * (a * u) <= (u * e) * (a * u)) by (nonlinear_arith)
        requires
            m * w <= u * e,
    ;
    assert((u * e) * (a * u) == u * (e * a * u)) by (nonlinear_arith);
}

/// Two rounded products keep a proportion below two exact ones.
proof fn lemma_under_twice(m: nat, e: nat, w: nat, a: nat, b: nat)
    requires
        m * w <= UNIT * e,
    ensures
        scaled(scaled(m, a), b) * (w * UNIT * UNIT) <= UNIT * (e * a * b),
{
    let u = UNIT as nat;
    let p = scaled(m, a);
    let q = scaled(p, b);
    assert(p * u <= m * a) by (nonlinear_arith)
        requires
            p == (m * a) / u,
            u > 0,
    ;
    assert(q * u <= p * b) by (nonlinear_arith)
        requires
            q == (p * b) / u,
            u > 0,
    ;
    assert(q * (w * u * u) == ((q * u) * u) * w) by (nonlinear_arith);
    assert((q * u) * u <= (p * b) * u) by (nonlinear_arith)
        requires
            q * u <= p * b,
    ;
    assert((p * b) * u == (p * u) * b) by (nonlinear_arith);
    assert((p * u) * b <= (m * a) * b) by (nonlinear_arith)
        requires
            p * u <= m * a,
    ;
    assert(((q * u) * u) * w <= ((m * a) * b) * w) by (nonlinear_arith)
        requires
            (q * u) * u <= (m * a) * b,
    ;
    assert(((m * a) * b) * w == (m * w) * (a * b)) by (nonlinear_arith);
    assert((m * w) * (a * b) <= (u * e) * (a * b)) by (nonlinear_arith)
        requires
            m * w <= u * e,
    ;
    assert((u * e) * (a * b) == u * (e * a * b)) by (nonlinear_arith);
}

/// No state holds more mass than the exact chain gives it.
pub proof fn lemma_never_over(target: nat, subrate: nat, pulls: nat, count: int, pity: int)
    ensures
        mass(target, subrate, pulls, count, pity) * whole(pulls) <= UNIT * exact_mass(
            target,
            subrate,
            pulls,
            count,
            pity,
        ),
    decreases pulls, 0nat, 0nat,
{
    let u = UNIT as nat;
    if count < 0 || count > target || pity < 0 || pity > PITY_LEVELS {
        assert(0 * whole(pulls) == 0) by (nonlinear_arith);
        assert(u * 0 == 0) by (nonlinear_arith);
    } else if pulls == 0 {
        assert(u * 1 == u && 1 * u == u && 0 * 1 == 0 && u * 0 == 0) by (nonlinear_arith);
    } else if pity == 0 {
        lemma_resets_never_over(target, subrate, (pulls - 1) as nat, count, PITY_LEVELS as nat);
    } else if count < target {
        let before = (pulls - 1) as nat;
        lemma_never_over(target, subrate, before, count, pity - 1);
        lemma_under_once(
            mass(target, subrate, before, count, pity - 1),
            exact_mass(target, subrate, before, count, pity - 1),
            whole(before),
            (UNIT - rate(pity - 1)) as nat,
        );
    } else {
        assert(0 * whole(pulls) == 0) by (nonlinear_arith);
        assert(u * 0 == 0) by (nonlinear_arith);
    }
}

/// No pull moves more mass to pity level zero than the exact chain does.
proof fn lemma_resets_never_over(target: nat, subrate: nat, pulls: nat, count: int, levels: nat)
    ensures
        resets(target, subrate, pulls, count, levels) * whole(pulls + 1) <= UNIT * exact_resets(
            target,
            subrate,
            pulls,
            count,
            levels,
        ),
    decreases pulls, 1nat, levels,
{
    let u = UNIT as nat;
    let w = whole(pulls + 1);
    if levels == 0 {
        assert(0 * w == 0) by (nonlinear_arith);
        assert(u * 0 == 0) by (nonlinear_arith);
    } else {
        let level = levels - 1;
        lemma_resets_never_over(target, subrate, pulls, count, level as nat);
        lemma_never_over(target, subrate, pulls, count, level);
        lemma_never_over(target, subrate, pulls, count - 1, level);
        let same = mass(target, subrate, pulls, count, level);
        let below = mass(target, subrate, pulls, count - 1, level);
        let exact_same = exact_mass(target, subrate, pulls, count, level);
        let exact_below = exact_mass(target, subrate, pulls, count - 1, level);
        let other = (UNIT - subrate) as nat;
        lemma_under_twice(same, exact_same, whole(pulls), rate(level), other);
        lemma_under_twice(below, exact_below, whole(pulls), rate(level), subrate);
        let r0 = resets(target, subrate, pulls, count, level as nat);
        let e0 = exact_resets(target, subrate, pulls, count, level as nat);
        let lost = if count < target {
            unwanted(same, level, subrate)
        } else {
            0
        };
        let exact_lost = if count < target {
            exact_same * rate(level) * other
        } else {
            0
        };
        let won = wanted(below, level, subrate);
        let exact_won = exact_below * rate(level) * subrate;
        assert(lost * w <= u * exact_lost) by {
            assert(0 * w == 0) by (nonlinear_arith);
            assert(u * 0 == 0) by (nonlinear_arith);
        }
        assert((r0 + lost + won) * w == r0 * w + lost * w + won * w) by (nonlinear_arith);
        assert(u * (e0 + exact_lost + exact_won) == u * e0 + u * exact_lost + u * exact_won)
            by (nonlinear_arith);
    }
}

/// The exact masses of the states with `count` targets after `pulls` pulls, by pity
/// level.
pub open spec fn exact_row(target: nat, subrate: nat, pulls: nat, count: int) -> spec_fn(
    int,
) -> nat {
    |pity: int| exact_mass(target, subrate, pulls, count, pity)
}

/// The exact mass of all states with `count` targets after `pulls` pulls, by `count`.
pub open spec fn exact_row_totals(target: nat, subrate: nat, pulls: nat) -> spec_fn(int) -> nat {
    |count: int| sum_below(exact_row(target, subrate, pulls, count), (PITY_LEVELS + 1) as nat)
}

/// The exact mass of all states with fewer than `counts` targets after `pulls`
/// pulls, as a numerator over `whole(pulls)`.
pub open spec fn exact_live(target: nat, subrate: nat, pulls: nat, counts: nat) -> nat {
    sum_below(exact_row_totals(target, subrate, pulls), counts)
}

/// By pity level, the exact mass with `count` targets whose next pull gives no rare
/// outcome.
spec fn exact_kept_terms(target: nat, subrate: nat, pulls: nat, count: int) -> spec_fn(
    int,
) -> nat {
    |level: int|
        exact_mass(target, subrate, pulls, count, level) * ((UNIT - rate(level)) as nat) * (
        UNIT as nat)
}

/// By pity level, the exact mass with `count` targets whose next pull gives the
/// target.
spec fn exact_wanted_terms(target: nat, subrate: nat, pulls: nat, count: int) -> spec_fn(
    int,
) -> nat {
    |level: int| exact_mass(target, subrate, pulls, count, level) * rate(level) * subrate
}

/// By pity level, the exact mass with `count` targets whose next pull gives a rare
/// outcome other than the target, where the target is not yet reached.
spec fn exact_unwanted_terms(target: nat, subrate: nat, pulls: nat, count: int) -> spec_fn(
    int,
) -> nat {
    |level: int|
        if count < target {
            exact_mass(target, subrate, pulls, count, level) * rate(level) * ((UNIT
                - subrate) as nat)
        } else {
            0
        }
}

/// What a pull moves to pity level zero is what the rare outcomes other than the
/// target leave at the same count, and what the targets bring from one count below.
proof fn lemma_exact_resets_split(target: nat, subrate: nat, pulls: nat, count: int, levels: nat)
    ensures
        exact_resets(target, subrate, pulls, count, levels) == sum_below(
            exact_unwanted_terms(target, subrate, pulls, count),
            levels,
        ) + sum_below(exact_wanted_terms(target, subrate, pulls, count - 1), levels),
    decreases levels,
{
    if levels > 0 {
        lemma_exact_resets_split(target, subrate, pulls, count, (levels - 1) as nat);
    }
}

/// After a pull, the exact mass short of the target at a count is what moved to pity
/// level zero and what moved one pity level up.
proof fn lemma_exact_row_shift(target: nat, subrate: nat, pulls: nat, count: int, levels: nat)
    requires
        0 <= count < target,
        levels <= PITY_LEVELS,
    ensures
        sum_below(exact_row(target, subrate, pulls + 1, count), levels + 1) == exact_mass(
            target,
            subrate,
            pulls + 1,
            count,
            0,
        ) + sum_below(exact_kept_terms(target, subrate, pulls, count), levels),
    decreases levels,
{
    let f = exact_row(target, subrate, pulls + 1, count);
    if levels == 0 {
        assert(sum_below(f, 0) == 0);
        assert(sum_below(f, 1) == sum_below(f, 0) + f(0));
    } else {
        lemma_exact_row_shift(target, subrate, pulls, count, (levels - 1) as nat);
        assert(f(levels as int) == exact_kept_terms(target, subrate, pulls, count)(levels - 1));
    }
}

/// The three parts into which a pull splits the exact mass at a count are that mass.
proof fn lemma_exact_terms(target: nat, subrate: nat, pulls: nat, count: int, levels: nat)
    requires
        subrate <= UNIT,
        count < target,
    ensures
        sum_below(exact_unwanted_terms(target, subrate, pulls, count), levels) + sum_below(
            exact_wanted_terms(target, subrate, pulls, count),
            levels,
        ) + sum_below(exact_kept_terms(target, subrate, pulls, count), levels) == sum_below(
            exact_row(target, subrate, pulls, count),
            levels,
        ) * UNIT * UNIT,
    decreases levels,
{
    let u = UNIT as nat;
    if levels > 0 {
        lemma_exact_terms(target, subrate, pulls, count, (levels - 1) as nat);
        let e = exact_mass(target, subrate, pulls, count, levels - 1);
        let r = rate(levels - 1);
        let k = (UNIT - r) as nat;
        let other = (UNIT - subrate) as nat;
        let before = sum_below(exact_row(target, subrate, pulls, count), (levels - 1) as nat);
        assert(e * r * other + e * r * subrate + e * k * u == e * u * u) by (nonlinear_arith)
            requires
                k + r == u,
                other + subrate == u,
        ;
        assert((before + e) * u * u == before * u * u + e * u * u) by (nonlinear_arith);
    } else {
        assert(0 * u * u == 0) by (nonlinear_arith);
    }
}

/// The pity level past the last holds no exact mass.
proof fn lemma_exact_no_level_beyond(target: nat, subrate: nat, pulls: nat, count: int)
    ensures
        exact_mass(target, subrate, pulls, count, PITY_LEVELS as int) == 0,
{
    if pulls > 0 {
        let e = exact_mass(target, subrate, (pulls - 1) as nat, count, PITY_LEVELS - 1);
        assert(e * 0 * (UNIT as nat) == 0) by (nonlinear_arith);
    }
}

/// No exact target comes from below zero targets.
proof fn lemma_exact_nothing_below_zero(target: nat, subrate: nat, pulls: nat, levels: nat)
    ensures
        sum_below(exact_wanted_terms(target, subrate, pulls, -1), levels) == 0,
{
    let f = exact_wanted_terms(target, subrate, pulls, -1);
    assert forall|i: int| 0 <= i < levels implies #[trigger] f(i) == 0 by {
        assert(0 * rate(i) * subrate == 0) by (nonlinear_arith);
    }
    lemma_sum_zero(f, levels);
}

/// One pull moves all the exact mass of the states below `counts` targets to states
/// below `counts` targets and to the first state with `counts` targets.
proof fn lemma_exact_pull(target: nat, subrate: nat, pulls: nat, counts: nat)
    requires
        subrate <= UNIT,
        counts <= target,
    ensures
        exact_live(target, subrate, pulls + 1, counts) + sum_below(
            exact_wanted_terms(target, subrate, pulls, counts - 1),
            PITY_LEVELS as nat,
        ) == exact_live(target, subrate, pulls, counts) * UNIT * UNIT,
    decreases counts,
{
    let u = UNIT as nat;
    let levels = PITY_LEVELS as nat;
    if counts == 0 {
        lemma_exact_nothing_below_zero(target, subrate, pulls, levels);
        assert(0 * u * u == 0) by (nonlinear_arith);
    } else {
        let count = counts - 1;
        lemma_exact_pull(target, subrate, pulls, count as nat);
        lemma_exact_row_shift(target, subrate, pulls, count, levels);
        lemma_exact_resets_split(target, subrate, pulls, count, levels);
        lemma_exact_terms(target, subrate, pulls, count, levels);
        lemma_exact_no_level_beyond(target, subrate, pulls, count);
        let before = exact_row(target, subrate, pulls, count);
        assert(sum_below(before, levels + 1) == sum_below(before, levels) + before(
            levels as int,
        ));
        assert(exact_row_totals(target, subrate, pulls + 1)(count) == sum_below(
            exact_row(target, subrate, pulls + 1, count),
            levels + 1,
        ));
        assert(exact_row_totals(target, subrate, pulls)(count) == sum_below(before, levels + 1));
        let a = exact_live(target, subrate, pulls, count as nat);
        let b = sum_below(before, levels);
        assert((a + b) * u * u == a * u * u + b * u * u) by (nonlinear_arith);
    }
}

/// Before the first pull all exact mass is at no target.
proof fn lemma_exact_live_start(target: nat, subrate: nat, counts: nat)
    requires
        counts <= target,
    ensures
        exact_live(target, subrate, 0, counts) == (if counts == 0 {
            0nat
        } else {
            1nat
        }),
    decreases counts,
{
    if counts > 0 {
        let count = counts - 1;
        lemma_exact_live_start(target, subrate, count as nat);
        let f = exact_row(target, subrate, 0, count);
        let n = (PITY_LEVELS + 1) as nat;
        if count == 0 {
            lemma_sum_single(f, n, 0);
            assert(exact_live(target, subrate, 0, 0) == 0);
        } else {
            lemma_sum_zero(f, n);
        }
        assert(exact_row_totals(target, subrate, 0)(count) == sum_below(f, n));
    }
}

/// In exact arithmetic no mass is lost: where a target is wanted, the mass still in
/// play after `pulls` pulls and the mass that has reached the target by then are one
/// together.
pub proof fn lemma_exact_conserved(target: nat, subrate: nat, pulls: nat)
    requires
        subrate <= UNIT,
        target >= 1,
    ensures
        exact_live(target, subrate, pulls, target) + exact_within(target, subrate, pulls)
            == whole(pulls),
    decreases pulls,
{
    let u = UNIT as nat;
    if pulls == 0 {
        lemma_exact_live_start(target, subrate, target);
    } else {
        let before = (pulls - 1) as nat;
        let levels = PITY_LEVELS as nat;
        lemma_exact_conserved(target, subrate, before);
        lemma_exact_pull(target, subrate, before, target);
        lemma_exact_resets_split(target, subrate, before, target as int, levels);
        lemma_sum_zero(exact_unwanted_terms(target, subrate, before, target as int), levels);
        let a = exact_live(target, subrate, before, target);
        let b = exact_within(target, subrate, before);
        assert((a + b) * u * u == a * u * u + b * u * u) by (nonlinear_arith);
    }
}

/// The states below `counts` targets hold no more mass than the exact chain gives
/// them.
proof fn lemma_live_never_over(target: nat, subrate: nat, pulls: nat, counts: nat)
    ensures
        live(target, subrate, pulls, counts) * whole(pulls) <= exact_live(
            target,
            subrate,
            pulls,
            counts,
        ) * UNIT,
{
    let u = UNIT as nat;
    let w = whole(pulls);
    let n = (PITY_LEVELS + 1) as nat;
    let rows = row_totals(target, subrate, pulls);
    let exact_rows = exact_row_totals(target, subrate, pulls);
    assert forall|count: int| 0 <= count < counts implies #[trigger] rows(count) * w
        <= exact_rows(count) * u by {
        let f = row(target, subrate, pulls, count);
        let g = exact_row(target, subrate, pulls, count);
        assert forall|pity: int| 0 <= pity < n implies #[trigger] f(pity) * w <= g(pity) * u by {
            lemma_never_over(target, subrate, pulls, count, pity);
            assert(g(pity) * u == u * g(pity)) by (nonlinear_arith);
        }
        lemma_sum_scaled_le(f, g, w, u, n);
    }
    lemma_sum_scaled_le(rows, exact_rows, w, u, counts);
}

/// The probability of reaching the target within `pulls` pulls is never overstated.
proof fn lemma_within_never_over(target: nat, subrate: nat, pulls: nat)
    ensures
        reached_within(target, subrate, pulls) * whole(pulls) <= UNIT * exact_within(
            target,
            subrate,
            pulls,
        ),
    decreases pulls,
{
    let u = UNIT as nat;
    if pulls == 0 {
        assert(0 * whole(0) == 0) by (nonlinear_arith);
        assert(u * 0 == 0) by (nonlinear_arith);
    } else {
        let before = (pulls - 1) as nat;
        lemma_within_never_over(target, subrate, before);
        lemma_never_over(target, subrate, pulls, target as int, 0);
        let a = reached_within(target, subrate, before);
        let b = reached(target, subrate, pulls);
        let x = exact_within(target, subrate, before);
        let y = exact_mass(target, subrate, pulls, target as int, 0);
        let w = whole(before);
        assert(arrivals(target, subrate)(before as int) == b);
        assert((a + b) * (w * u * u) == (a * w) * (u * u) + b * (w * u * u)) by (nonlinear_arith);
        assert((a * w) * (u * u) <= (u * x) * (u * u)) by (nonlinear_arith)
            requires
                a * w <= u * x,
        ;
        assert((u * x) * (u * u) + u * y == u * (x * u * u + y)) by (nonlinear_arith);
    }
}

/// The probability of reaching the target within `pulls` pulls, as the library holds
/// it, is no more than the exact one, and falls short of it by no more than two units
/// for each pull, pity level and count of targets below the target.
pub proof fn lemma_reached_within_exact(target: nat, subrate: nat, pulls: nat)
    requires
        subrate <= UNIT,
        target >= 1,
    ensures
        reached_within(target, subrate, pulls) * whole(pulls) <= UNIT * exact_within(
            target,
            subrate,
            pulls,
        ),
        UNIT * exact_within(target, subrate, pulls) <= (reached_within(target, subrate, pulls) + 2
            * PITY_LEVELS * target * pulls) * whole(pulls),
{
    let u = UNIT as nat;
    let w = whole(pulls);
    let lost = (2 * PITY_LEVELS * target * pulls) as nat;
    let held = reached_within(target, subrate, pulls);
    let play = live(target, subrate, pulls, target);
    let exact_held = exact_within(target, subrate, pulls);
    let exact_play = exact_live(target, subrate, pulls, target);
    lemma_within_never_over(target, subrate, pulls);
    lemma_live_never_over(target, subrate, pulls, target);
    lemma_exact_conserved(target, subrate, pulls);
    lemma_mass_nearly_conserved(target, subrate, pulls);
    assert(u * exact_held + exact_play * u == u * w) by (nonlinear_arith)
        requires
            exact_play + exact_held == w,
    ;
    assert((held + lost) * w + play * w >= u * w) by (nonlinear_arith)
        requires
            play + held + lost >= u,
    ;
}

} // verus!
