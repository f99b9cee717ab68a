//! How a banner with focus compares with one without, within the focus window.

use vstd::prelude::*;
use crate::focus::{focus_arrivals, focus_reached, focus_reached_within, lemma_first_target};
use crate::prob::{
    lemma_floor, lemma_scaled_le, lemma_scaled_mono, lemma_scaled_more, lemma_scaled_unit,
    lemma_scaled_zero, lemma_shares, scaled, shares, UNIT,
};
use crate::rates::{rate, PITY_LEVELS};
use crate::simple::{
    arrivals, kept, lemma_nothing_below_zero, lemma_resets_split, mass, rare, reached,
    reached_within, spared, unwanted_terms, wanted_terms,
};
use crate::sums::{
    delayed, lemma_sum_add, lemma_sum_eq, lemma_sum_le, lemma_sum_mono, lemma_sum_reversed,
    lemma_sum_shift, lemma_sum_zero, lemma_sum_zero_tail, reversed, sum_below,
};
use crate::waits::{
    focus_at, focus_term, lemma_focus_total, lemma_spared_falls, lemma_spared_runs_out,
    lemma_unmet_sum, lemma_waits_total, rare_at, unmet, unmet_term, waits, FOCUS_WINDOW, RARE_SPAN,
};

verus! {

/// What rounding can cost a banner with focus against one without on each pull, in
/// units of `1 / UNIT`.
pub const SLACK: u64 = 10_310;

/// The mass `x` after `levels` pulls from pity level zero that all missed.
spec fn carried(x: nat, levels: nat) -> nat
    decreases levels,
{
    if levels == 0 {
        x
    } else {
        kept(carried(x, (levels - 1) as nat), levels - 1)
    }
}

/// More mass carries more.
proof fn lemma_carried_mono(x: nat, y: nat, levels: nat)
    requires
        x <= y,
    ensures
        carried(x, levels) <= carried(y, levels),
    decreases levels,
{
    if levels > 0 {
        lemma_carried_mono(x, y, (levels - 1) as nat);
        lemma_scaled_mono(
            carried(x, (levels - 1) as nat),
            carried(y, (levels - 1) as nat),
            (UNIT - rate(levels - 1)) as nat,
        );
    }
}

/// Without focus and with one target wanted, the mass at a pity level is what was at
/// pity level zero that many pulls before, carried through the misses since.
proof fn lemma_cells(subrate: nat, pulls: nat, pity: nat)
    requires
        pity <= PITY_LEVELS,
    ensures
        mass(1, subrate, pulls, 0, pity as int) == (if pity <= pulls {
            carried(mass(1, subrate, (pulls - pity) as nat, 0, 0), pity)
        } else {
            0
        }),
    decreases pity,
{
    if pity > 0 && pulls > 0 {
        lemma_cells(subrate, (pulls - 1) as nat, (pity - 1) as nat);
        lemma_scaled_zero((UNIT - rate(pity - 1)) as nat);
    }
}

/// Carrying a mass through misses keeps no more of it than the misses leave of one,
/// but for one unit of the mass at each level.
proof fn lemma_carried_bound(y: nat, levels: nat)
    ensures
        carried(y, levels) * UNIT <= y * spared(levels) + levels * y,
    decreases levels,
{
    let u = UNIT as nat;
    if levels == 0 {
        assert(0 * y == 0) by (nonlinear_arith);
        assert(y * u == u * y) by (nonlinear_arith);
    } else {
        let p = (levels - 1) as nat;
        lemma_carried_bound(y, p);
        let k = (UNIT - rate(p as int)) as nat;
        let c = carried(y, p);
        let c1 = carried(y, levels);
        let s = spared(p);
        let s1 = spared(levels);
        lemma_floor(c * k, c1);
        lemma_floor(s * k, s1);
        assert((c * u) * k <= (y * s + p * y) * k) by (nonlinear_arith)
            requires
                c * u <= y * s + p * y,
        ;
        assert((y * s + p * y) * k == y * (s * k) + (p * y) * k) by (nonlinear_arith);
        assert(y * (s * k) <= y * (s1 * u + u)) by (nonlinear_arith)
            requires
                s * k <= s1 * u + u,
        ;
        assert((p * y) * k <= (p * y) * u) by (nonlinear_arith)
            requires
                k <= u,
        ;
        assert(y * (s1 * u + u) + (p * y) * u == (y * s1 + levels * y) * u) by (nonlinear_arith)
            requires
                levels == p + 1,
        ;
        assert((c * k) * u == (c * u) * k) by (nonlinear_arith);
        assert(c * k <= y * s1 + levels * y) by (nonlinear_arith)
            requires
                (c * k) * u <= (y * s1 + levels * y) * u,
                u > 0,
        ;
    }
}

/// The rare outcomes that a mass meets after `level` misses are no more than the
/// wait of `level + 1` pulls takes of it, but for two units at each level.
proof fn lemma_rare_term(x: nat, known: nat, more: nat, level: nat)
    requires
        x <= known + more,
        known <= UNIT,
        more <= UNIT,
        level < RARE_SPAN,
    ensures
        rare(carried(x, level), level as int) <= scaled(known, rare_at(level as int + 1)) + scaled(
            more,
            rare_at(level as int + 1),
        ) + 2 * level + 1,
{
    let u = UNIT as nat;
    let y = known + more;
    let r = rate(level as int);
    let k = (UNIT - r) as nat;
    let h = carried(x, level);
    let c = carried(y, level);
    let s = spared(level);
    let s1 = spared(level + 1);
    let w = rare_at(level as int + 1);
    let got = rare(h, level as int);
    lemma_carried_mono(x, y, level);
    lemma_carried_bound(y, level);
    lemma_spared_falls(level);
    lemma_floor(s * k, s1);
    lemma_floor(h * r, got);
    lemma_floor(known * w, scaled(known, w));
    lemma_floor(more * w, scaled(more, w));
    assert(w == s - s1);
    assert(s * r <= w * u) by (nonlinear_arith)
        requires
            s1 * u <= s * k,
            k + r == u,
            w == s - s1,
    ;
    assert(h * r <= c * r) by (nonlinear_arith)
        requires
            h <= c,
    ;
    assert((c * u) * r <= (y * s + level * y) * r) by (nonlinear_arith)
        requires
            c * u <= y * s + level * y,
    ;
    assert((y * s + level * y) * r == y * (s * r) + (level * y) * r) by (nonlinear_arith);
    assert(y * (s * r) <= y * (w * u)) by (nonlinear_arith)
        requires
            s * r <= w * u,
    ;
    assert((level * y) * r <= (level * y) * u) by (nonlinear_arith)
        requires
            r <= u,
    ;
    assert(y * (w * u) + (level * y) * u == (y * w + level * y) * u) by (nonlinear_arith);
    assert((c * r) * u == (c * u) * r) by (nonlinear_arith);
    assert(c * r <= y * w + level * y) by (nonlinear_arith)
        requires
            (c * r) * u <= (y * w + level * y) * u,
            u > 0,
    ;
    assert(y * w == known * w + more * w) by (nonlinear_arith)
        requires
            y == known + more,
    ;
    assert(level * y <= level * (2 * u)) by (nonlinear_arith)
        requires
            y <= 2 * u,
    ;
    let bound = scaled(known, w) + scaled(more, w) + 2 * level + 2;
    assert(got * u < bound * u) by (nonlinear_arith)
        requires
            got * u <= h * r,
            h * r <= c * r,
            c * r <= known * w + more * w + level * y,
            known * w < scaled(known, w) * u + u,
            more * w < scaled(more, w) * u + u,
            level * y <= level * (2 * u),
            bound == scaled(known, w) + scaled(more, w) + 2 * level + 2,
    ;
    assert(got < bound) by (nonlinear_arith)
        requires
            got * u < bound * u,
            u > 0,
    ;
}

/// What the last pity level carries of any mass is next to nothing.
proof fn lemma_last_level(x: nat)
    requires
        x <= 2 * UNIT,
    ensures
        carried(x, RARE_SPAN as nat) <= 706,
{
    let u = UNIT as nat;
    let c = carried(x, RARE_SPAN as nat);
    let s = spared(RARE_SPAN as nat);
    lemma_carried_bound(x, RARE_SPAN as nat);
    lemma_spared_runs_out();
    assert(x * s <= (2 * u) * 255) by (nonlinear_arith)
        requires
            x <= 2 * u,
            s <= 255,
    ;
    assert(98 * x <= 98 * (2 * u));
}

/// What rounding can cost at a pity level, by level.
spec fn slack_terms() -> spec_fn(int) -> nat {
    |level: int|
        if 0 <= level < RARE_SPAN {
            (2 * level + 1) as nat
        } else {
            706
        }
}

/// The slack of all pity levels is `SLACK`.
proof fn lemma_slack_sum(levels: nat)
    requires
        levels <= PITY_LEVELS,
    ensures
        sum_below(slack_terms(), levels) == (if levels <= RARE_SPAN {
            levels * levels
        } else {
            SLACK as nat
        }),
    decreases levels,
{
    if levels > 0 {
        let before = (levels - 1) as nat;
        lemma_slack_sum(before);
        assert(levels * levels == before * before + 2 * before + 1) by (nonlinear_arith)
            requires
                levels == before + 1,
        ;
        assert(98 * 98 == 9604) by (nonlinear_arith);
    } else {
        assert(0 * 0 == 0) by (nonlinear_arith);
    }
}

/// The waits, each counted one pull early, have no more than probability one
/// together.
proof fn lemma_next_waits(k: nat)
    ensures
        sum_below(delayed(waits(), -1), k) <= UNIT,
{
    let f = delayed(waits(), -1);
    lemma_sum_shift(f, k);
    lemma_sum_eq(delayed(f, 1), waits(), k + 1);
    lemma_waits_total(k + 1);
}

/// By pity level: what the focus recurrence gives on pull `pulls` to the target,
/// from the rare outcome that many pulls and one before.
spec fn hit_terms(subrate: nat, pulls: nat) -> spec_fn(int) -> nat {
    |level: int|
        if 0 <= level < pulls && level < RARE_SPAN {
            scaled(
                scaled(unmet(subrate, (pulls - 1 - level) as nat), rare_at(level + 1)),
                subrate,
            )
        } else {
            0
        }
}

/// By pity level: what the focus recurrence leaves unmet on pull `pulls`, from the
/// rare outcome that many pulls and one before.
spec fn miss_terms(subrate: nat, pulls: nat) -> spec_fn(int) -> nat {
    |level: int|
        if 0 <= level < pulls && level < RARE_SPAN {
            scaled(
                scaled(unmet(subrate, (pulls - 1 - level) as nat), rare_at(level + 1)),
                (UNIT - subrate) as nat,
            )
        } else {
            0
        }
}

/// By pity level or by the pull of the rare outcome before, the terms of the focus
/// recurrence are the same.
proof fn lemma_hits(subrate: nat, pulls: nat)
    requires
        1 <= pulls <= FOCUS_WINDOW,
    ensures
        sum_below(hit_terms(subrate, pulls), PITY_LEVELS as nat) <= focus_at(subrate, pulls as int),
        sum_below(miss_terms(subrate, pulls), PITY_LEVELS as nat) <= unmet(subrate, pulls),
{
    let levels = PITY_LEVELS as nat;
    let hit = hit_terms(subrate, pulls);
    let miss = miss_terms(subrate, pulls);
    let on = focus_term(subrate, pulls as int);
    let off = unmet_term(subrate, pulls as int);
    if pulls <= levels {
        lemma_sum_zero_tail(hit, pulls, levels);
        lemma_sum_zero_tail(miss, pulls, levels);
    } else {
        lemma_sum_mono(hit, levels, pulls);
        lemma_sum_mono(miss, levels, pulls);
    }
    lemma_sum_le(hit, reversed(on, pulls as int), pulls);
    lemma_sum_le(miss, reversed(off, pulls as int), pulls);
    lemma_sum_reversed(on, pulls);
    lemma_sum_reversed(off, pulls);
    lemma_unmet_sum(subrate, pulls, pulls);
}

/// Within the focus window and with one target wanted, the recurrence without focus
/// runs behind the one with focus by no more than `SLACK` units for each pull: in
/// what it holds at pity level zero, and in what reaches the target.
proof fn lemma_behind(subrate: nat, pulls: nat)
    requires
        subrate <= UNIT,
        pulls <= FOCUS_WINDOW,
    ensures
        mass(1, subrate, pulls, 0, 0) <= unmet(subrate, pulls) + SLACK * pulls,
        pulls >= 1 ==> reached(1, subrate, pulls) <= focus_at(subrate, pulls as int) + SLACK
            * pulls,
    decreases pulls,
{
    if pulls >= 1 {
        let before = (pulls - 1) as nat;
        let more = (SLACK * before) as nat;
        let levels = PITY_LEVELS as nat;
        let other = (UNIT - subrate) as nat;
        let won = wanted_terms(1, subrate, before, 0);
        let lost = unwanted_terms(1, subrate, before, 0);
        let hit = hit_terms(subrate, pulls);
        let miss = miss_terms(subrate, pulls);
        let extra = shares(more, delayed(waits(), -1));
        let slack = slack_terms();
        let hit_more = |level: int| hit(level) + extra(level);
        let miss_more = |level: int| miss(level) + extra(level);
        let hit_all = |level: int| hit_more(level) + slack(level);
        let miss_all = |level: int| miss_more(level) + slack(level);
        assert forall|level: int| 0 <= level < levels implies #[trigger] won(level) <= hit_all(
            level,
        ) && lost(level) <= miss_all(level) by {
            lemma_cells(subrate, before, level as nat);
            let cell = mass(1, subrate, before, 0, level);
            if level < pulls {
                let from = (before - level) as nat;
                lemma_behind(subrate, from);
                lemma_focus_total(subrate, from);
                let x = mass(1, subrate, from, 0, 0);
                let known = unmet(subrate, from);
                assert(x <= known + more);
                if level < RARE_SPAN {
                    lemma_rare_term(x, known, more, level as nat);
                    let a = scaled(known, rare_at(level + 1));
                    let d = (scaled(more, rare_at(level + 1)) + 2 * level + 1) as nat;
                    assert(extra(level) == scaled(more, rare_at(level + 1)));
                    lemma_scaled_mono(rare(cell, level), a + d, subrate);
                    lemma_scaled_more(a, d, subrate);
                    lemma_scaled_mono(rare(cell, level), a + d, other);
                    lemma_scaled_more(a, d, other);
                } else {
                    lemma_carried_mono(x, known + more, RARE_SPAN as nat);
                    lemma_last_level(known + more);
                    lemma_scaled_unit(cell);
                    lemma_scaled_le(rare(cell, level), subrate);
                    lemma_scaled_le(rare(cell, level), other);
                }
            } else {
                lemma_scaled_zero(rate(level));
                lemma_scaled_zero(subrate);
                lemma_scaled_zero(other);
            }
        }
        assert forall|level: int| 0 <= level < levels implies #[trigger] lost(level) <= miss_all(
            level,
        ) by {
            assert(won(level) <= hit_all(level));
        }
        lemma_sum_le(won, hit_all, levels);
        lemma_sum_le(lost, miss_all, levels);
        lemma_sum_add(hit, extra, hit_more, levels);
        lemma_sum_add(hit_more, slack, hit_all, levels);
        lemma_sum_add(miss, extra, miss_more, levels);
        lemma_sum_add(miss_more, slack, miss_all, levels);
        lemma_slack_sum(levels);
        lemma_next_waits(levels);
        lemma_shares(more, delayed(waits(), -1), levels);
        lemma_hits(subrate, pulls);
        lemma_resets_split(1, subrate, before, 1, levels);
        lemma_sum_zero(unwanted_terms(1, subrate, before, 1), levels);
        lemma_resets_split(1, subrate, before, 0, levels);
        lemma_nothing_below_zero(1, subrate, before, levels);
    }
}

/// Within the focus window a banner with focus is no less likely to have reached one
/// target than a banner without, up to rounding: what it is behind, if anything, is
/// no more than `SLACK` units for each pull of each budget up to the given one.
pub proof fn lemma_focus_no_worse(subrate: nat, pulls: nat)
    requires
        subrate <= UNIT,
        pulls <= FOCUS_WINDOW,
    ensures
        reached_within(1, subrate, pulls) <= focus_reached_within(1, subrate, pulls) + SLACK
            * pulls * pulls,
    decreases pulls,
{
    if pulls > 0 {
        let before = (pulls - 1) as nat;
        lemma_focus_no_worse(subrate, before);
        lemma_behind(subrate, pulls);
        lemma_first_target(subrate, pulls);
        assert(arrivals(1, subrate)(before as int) == reached(1, subrate, pulls));
        assert(focus_arrivals(1, subrate)(before as int) == focus_reached(1, subrate, pulls));
        assert(SLACK * before * before + SLACK * pulls <= SLACK * pulls * pulls)
            by (nonlinear_arith)
            requires
                pulls == before + 1,
        ;
    } else {
        assert(SLACK * pulls * pulls == 0) by (nonlinear_arith)
            requires
                pulls == 0,
        ;
    }
}

} // verus!
