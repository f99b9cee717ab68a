//! Banners with focus: a chain over the pulls that bring a rare outcome.

use vstd::prelude::*;
use crate::budget::{allowance, conv_size, plan, counts, underfunded, window, BudgetError};
use crate::combiner::{padded, padded_entry, Prepared, Rejection};
use crate::prob::{
    entries, lemma_scaled_split, lemma_scaled_unit, lemma_scaled_zero, lemma_shares, scaled, shares,
    times, total, UNIT,
};
use crate::renewal::{flows, lemma_flow, outflow};
use crate::simple::{reached, reached_within};
use crate::sums::{
    delayed, fix_first, fix_second, lemma_sum_add, lemma_sum_delayed, lemma_sum_eq,
    lemma_sum_exchange, lemma_sum_le, lemma_sum_mono, lemma_sum_shift, lemma_sum_single,
    lemma_sum_term, lemma_sum_zero, sum_below, sums_over_first, sums_over_second,
};
use crate::waits::{
    focus_at, focus_table, focus_waits, holds_focus, holds_rare, lemma_focus_at_bounded,
    lemma_focus_guarantee, lemma_focus_span, lemma_focus_total, lemma_waits_total, rare_at,
    rare_table, unmet_table, waits, FOCUS_LOSS, FOCUS_SPAN, FOCUS_WINDOW, RARE_SPAN,
};

verus! {

/// One banner: how many targets are wanted from it, the chance that a rare outcome
/// is the target, the pulls that only this banner can use, and whether it has the
/// focus that forces the target.
#[derive(Debug, Clone, Copy)]
pub struct Banner {
    /// The count of targets wanted.
    pub target: usize,
    /// The chance, in units of `1 / UNIT`, that a rare outcome is the target.
    pub subrate: u64,
    /// The pulls granted for this banner alone.
    pub bonus_pulls: usize,
    /// Whether the banner has the focus.
    pub has_focus: bool,
}

/// What one renewal sends to a later one. A renewal is a pull that brings a rare
/// outcome; its state is the count of targets and whether the focus is spent. The
/// renewal that receives lies `distance` pulls after the one that sends, has `count`
/// targets, and has the focus spent or not as `spent` says. The sender holds
/// `fresh_below` with one target fewer and the focus unspent, `spent_below` with one
/// target fewer and the focus spent, and `spent_same` with as many targets and the
/// focus spent.
///
/// An unspent focus gives the target after `distance` pulls with the probability
/// `focus_at`, and stays unspent if that is within the focus window. A spent focus
/// leaves each rare outcome to be the target with the probability `subrate`.
pub open spec fn gain(
    target: nat,
    subrate: nat,
    fresh_below: nat,
    spent_below: nat,
    spent_same: nat,
    distance: int,
    count: int,
    spent: bool,
) -> nat {
    if !spent {
        if distance <= FOCUS_WINDOW {
            scaled(fresh_below, focus_at(subrate, distance))
        } else {
            0
        }
    } else {
        (if distance > FOCUS_WINDOW {
            scaled(fresh_below, focus_at(subrate, distance))
        } else {
            0
        }) + scaled(scaled(spent_below, rare_at(distance)), subrate) + (if count < target {
            scaled(scaled(spent_same, rare_at(distance)), (UNIT - subrate) as nat)
        } else {
            0
        })
    }
}

/// The mass of the renewal on pull `pulls` with `count` targets and the focus spent
/// or not, in a chain that starts with nothing collected and the focus unspent, and
/// that no longer pulls once `target` targets are collected.
pub open spec fn settled(target: nat, subrate: nat, pulls: nat, count: int, spent: bool) -> nat
    decreases pulls, pulls + 1,
{
    if count < 0 || count > target {
        0
    } else if pulls == 0 {
        if count == 0 && !spent {
            UNIT as nat
        } else {
            0
        }
    } else {
        inflow(target, subrate, pulls, count, spent, pulls)
    }
}

/// The mass that the renewals on the pulls below `sources` send to the renewal on
/// pull `pulls` with `count` targets and the focus spent or not.
pub open spec fn inflow(
    target: nat,
    subrate: nat,
    pulls: nat,
    count: int,
    spent: bool,
    sources: nat,
) -> nat
    decreases pulls, sources,
{
    if sources == 0 || sources > pulls {
        0
    } else {
        let from = (sources - 1) as nat;
        inflow(target, subrate, pulls, count, spent, from) + gain(
            target,
            subrate,
            settled(target, subrate, from, count - 1, false),
            settled(target, subrate, from, count - 1, true),
            settled(target, subrate, from, count, true),
            pulls - from,
            count,
            spent,
        )
    }
}

/// What the renewal on pull `from` sends to the renewal on pull `pulls` with `count`
/// targets and the focus spent or not.
pub open spec fn arriving(
    target: nat,
    subrate: nat,
    from: nat,
    pulls: nat,
    count: int,
    spent: bool,
) -> nat {
    gain(
        target,
        subrate,
        settled(target, subrate, from, count - 1, false),
        settled(target, subrate, from, count - 1, true),
        settled(target, subrate, from, count, true),
        pulls - from,
        count,
        spent,
    )
}

/// The probability that the `target`-th target comes on pull number `pulls` exactly,
/// for a banner with focus.
pub open spec fn focus_reached(target: nat, subrate: nat, pulls: nat) -> nat {
    settled(target, subrate, pulls, target as int, false) + settled(
        target,
        subrate,
        pulls,
        target as int,
        true,
    )
}

/// The distribution as a function of the index: entry `i` belongs to pull `i + 1`.
pub open spec fn focus_arrivals(target: nat, subrate: nat) -> spec_fn(int) -> nat {
    |i: int| focus_reached(target, subrate, (i + 1) as nat)
}

/// The probability that the `target`-th target comes within the first `pulls` pulls,
/// for a banner with focus.
pub open spec fn focus_reached_within(target: nat, subrate: nat, pulls: nat) -> nat {
    sum_below(focus_arrivals(target, subrate), pulls)
}

/// The probability that the `target`-th target comes on pull number `pulls` exactly,
/// for a banner with focus or without.
pub open spec fn reached_by(target: nat, subrate: nat, pulls: nat, focus: bool) -> nat {
    if focus {
        focus_reached(target, subrate, pulls)
    } else {
        reached(target, subrate, pulls)
    }
}

/// The probability that the `target`-th target comes within the first `pulls` pulls,
/// for a banner with focus or without.
pub open spec fn reached_within_by(target: nat, subrate: nat, pulls: nat, focus: bool) -> nat {
    if focus {
        focus_reached_within(target, subrate, pulls)
    } else {
        reached_within(target, subrate, pulls)
    }
}

/// The mass of the renewals on pull `pulls`, by count of targets.
pub open spec fn level_mass(target: nat, subrate: nat, pulls: nat) -> spec_fn(int) -> nat {
    |count: int|
        settled(target, subrate, pulls, count, false) + settled(target, subrate, pulls, count, true)
}

/// The mass of the renewals with fewer than `target` targets, by pull.
pub open spec fn live_by(target: nat, subrate: nat) -> spec_fn(int) -> nat {
    |pulls: int|
        if pulls < 0 {
            0
        } else {
            sum_below(level_mass(target, subrate, pulls as nat), target)
        }
}

/// The mass of the renewals that bring the last target, by pull.
pub open spec fn done_by(target: nat, subrate: nat) -> spec_fn(int) -> nat {
    |pulls: int|
        if pulls <= 0 {
            0
        } else {
            focus_reached(target, subrate, pulls as nat)
        }
}

/// By count of targets: what the renewal on pull `from` sends to the renewals on
/// pull `to` with that count.
spec fn dest(target: nat, subrate: nat, from: int, to: int) -> spec_fn(int) -> nat {
    |count: int|
        if 0 <= from < to {
            gain(
                target,
                subrate,
                settled(target, subrate, from as nat, count - 1, false),
                settled(target, subrate, from as nat, count - 1, true),
                settled(target, subrate, from as nat, count, true),
                to - from,
                count,
                false,
            ) + gain(
                target,
                subrate,
                settled(target, subrate, from as nat, count - 1, false),
                settled(target, subrate, from as nat, count - 1, true),
                settled(target, subrate, from as nat, count, true),
                to - from,
                count,
                true,
            )
        } else {
            0
        }
}

/// `dest`, by count of targets and by the pull that sends.
spec fn dest_to(target: nat, subrate: nat, to: int) -> spec_fn(int, int) -> nat {
    |count: int, from: int| dest(target, subrate, from, to)(count)
}

/// What the pull `from` sends to the renewals on pull `to` that are short of the
/// target.
spec fn live_cont(target: nat, subrate: nat) -> spec_fn(int, int) -> nat {
    |from: int, to: int| sum_below(dest(target, subrate, from, to), target)
}

/// What the pull `from` sends to the renewals on pull `to` that bring the last
/// target.
spec fn live_stop(target: nat, subrate: nat) -> spec_fn(int, int) -> nat {
    |from: int, to: int| dest(target, subrate, from, to)(target as int)
}

/// What flows in from the pulls below `sources` is the sum of what each sends.
proof fn lemma_inflow_sum(target: nat, subrate: nat, pulls: nat, count: int, sources: nat)
    requires
        sources <= pulls,
    ensures
        inflow(target, subrate, pulls, count, false, sources) + inflow(
            target,
            subrate,
            pulls,
            count,
            true,
            sources,
        ) == sum_below(fix_first(dest_to(target, subrate, pulls as int), count), sources),
    decreases sources,
{
    if sources > 0 {
        lemma_inflow_sum(target, subrate, pulls, count, (sources - 1) as nat);
    }
}

/// The mass on a pull is what the pulls before it send there.
proof fn lemma_live_arrives(target: nat, subrate: nat, k: nat)
    requires
        k >= 1,
    ensures
        live_by(target, subrate)(k as int) == sum_below(
            fix_second(live_cont(target, subrate), k as int),
            k,
        ),
        done_by(target, subrate)(k as int) == sum_below(
            fix_second(live_stop(target, subrate), k as int),
            k,
        ),
{
    let g = dest_to(target, subrate, k as int);
    let levels = level_mass(target, subrate, k);
    assert forall|t: int| 0 <= t <= target implies #[trigger] levels(t) == sums_over_second(
        g,
        k,
    )(t) by {
        lemma_inflow_sum(target, subrate, k, t, k);
    }
    lemma_sum_eq(levels, sums_over_second(g, k), target);
    lemma_sum_exchange(g, target, k);
    let cont = fix_second(live_cont(target, subrate), k as int);
    assert forall|i: int| 0 <= i < k implies #[trigger] sums_over_first(g, target)(i) == cont(
        i,
    ) by {
        lemma_sum_eq(fix_second(g, i), dest(target, subrate, i, k as int), target);
    }
    lemma_sum_eq(sums_over_first(g, target), cont, k);
    lemma_sum_eq(fix_first(g, target as int), fix_second(live_stop(target, subrate), k as int), k);
    assert(done_by(target, subrate)(k as int) == levels(target as int));
    assert(levels(target as int) == sums_over_second(g, k)(target as int));
}

/// By count of targets: what the renewals on pull `from` with that count send on to
/// one target more on pull `to`.
spec fn sent_on(target: nat, subrate: nat, from: int, to: int) -> spec_fn(int) -> nat {
    |count: int|
        if 0 <= from < to {
            scaled(
                settled(target, subrate, from as nat, count, false),
                focus_at(subrate, to - from),
            ) + scaled(
                scaled(settled(target, subrate, from as nat, count, true), rare_at(to - from)),
                subrate,
            )
        } else {
            0
        }
}

/// By count of targets: what the renewals on pull `from` with that count send to
/// the same count on pull `to`.
spec fn sent_back(target: nat, subrate: nat, from: int, to: int) -> spec_fn(int) -> nat {
    |count: int|
        if 0 <= from < to && count < target {
            scaled(
                scaled(settled(target, subrate, from as nat, count, true), rare_at(to - from)),
                (UNIT - subrate) as nat,
            )
        } else {
            0
        }
}

/// By count of targets: all that the renewals on pull `from` with that count send
/// to pull `to`.
spec fn sent(target: nat, subrate: nat, from: int, to: int) -> spec_fn(int) -> nat {
    |count: int|
        sent_on(target, subrate, from, to)(count) + sent_back(target, subrate, from, to)(count)
}

/// What arrives on a pull, summed by the count that receives, is what was sent
/// there, summed by the count that sends.
proof fn lemma_levels_regroup(target: nat, subrate: nat, from: int, to: int)
    ensures
        sum_below(dest(target, subrate, from, to), target + 1) == sum_below(
            sent(target, subrate, from, to),
            target,
        ),
{
    let d = dest(target, subrate, from, to);
    let on = sent_on(target, subrate, from, to);
    let back = sent_back(target, subrate, from, to);
    let moved = delayed(on, 1);
    assert forall|count: int| 0 <= count < target + 1 implies #[trigger] d(count) == moved(count)
        + back(count) by {
        assert(moved(count) == on(count - 1));
    }
    lemma_sum_add(moved, back, d, target + 1);
    lemma_sum_shift(on, target);
    assert(on(-1) == 0) by {
        lemma_scaled_zero(focus_at(subrate, to - from));
        lemma_scaled_zero(rare_at(to - from));
        lemma_scaled_zero(subrate);
    }
    assert(sum_below(back, target + 1) == sum_below(back, target) + back(target as int));
    lemma_sum_add(on, back, sent(target, subrate, from, to), target);
}

/// By pull and count of targets: no less than what the renewals on pull `from` with
/// that count send to that pull.
spec fn spread(target: nat, subrate: nat, from: int) -> spec_fn(int, int) -> nat {
    |to: int, count: int|
        shares(
            settled(target, subrate, from as nat, count, false),
            delayed(focus_waits(subrate), from),
        )(to) + shares(settled(target, subrate, from as nat, count, true), delayed(waits(), from))(
            to,
        )
}

/// The waits that start on pull `from` have no more than probability one together.
proof fn lemma_focus_waits_total(subrate: nat, from: nat, m: nat)
    requires
        subrate <= UNIT,
    ensures
        sum_below(delayed(focus_waits(subrate), from as int), m) <= UNIT,
        sum_below(delayed(waits(), from as int), m) <= UNIT,
{
    let k: nat = if m >= from {
        (m - from) as nat
    } else {
        0
    };
    lemma_sum_delayed(focus_waits(subrate), from, m);
    lemma_focus_total(subrate, k);
    lemma_sum_mono(focus_waits(subrate), k, k + 1);
    lemma_sum_delayed(waits(), from, m);
    lemma_waits_total(k);
}

/// The renewals on a pull send no more than they hold.
proof fn lemma_live_sends(target: nat, subrate: nat, from: int, m: nat)
    requires
        subrate <= UNIT,
        0 <= from,
    ensures
        sum_below(outflow(live_cont(target, subrate), live_stop(target, subrate), from), m)
            <= live_by(target, subrate)(from),
{
    let out = outflow(live_cont(target, subrate), live_stop(target, subrate), from);
    let g = spread(target, subrate, from);
    let levels = level_mass(target, subrate, from as nat);
    assert forall|to: int| 0 <= to < m implies #[trigger] out(to) <= sums_over_second(g, target)(
        to,
    ) by {
        let d = dest(target, subrate, from, to);
        let snt = sent(target, subrate, from, to);
        assert(sum_below(d, target + 1) == sum_below(d, target) + d(target as int));
        lemma_levels_regroup(target, subrate, from, to);
        assert forall|count: int| 0 <= count < target implies #[trigger] snt(count) <= fix_first(
            g,
            to,
        )(count) by {
            let y = settled(target, subrate, from as nat, count, true);
            lemma_scaled_split(scaled(y, rare_at(to - from)), subrate);
            assert(delayed(focus_waits(subrate), from)(to) == focus_at(subrate, to - from));
            assert(delayed(waits(), from)(to) == rare_at(to - from));
        }
        lemma_sum_le(snt, fix_first(g, to), target);
    }
    lemma_sum_le(out, sums_over_second(g, target), m);
    lemma_sum_exchange(g, m, target);
    assert forall|count: int| 0 <= count < target implies #[trigger] sums_over_first(g, m)(count)
        <= levels(count) by {
        let x = settled(target, subrate, from as nat, count, false);
        let y = settled(target, subrate, from as nat, count, true);
        let wx = delayed(focus_waits(subrate), from);
        let wy = delayed(waits(), from);
        lemma_sum_add(shares(x, wx), shares(y, wy), fix_second(g, count), m);
        lemma_focus_waits_total(subrate, from as nat, m);
        lemma_shares(x, wx, m);
        lemma_shares(y, wy, m);
    }
    lemma_sum_le(sums_over_first(g, m), levels, target);
}

/// The chain of renewals is a flow: mass moves forward only, and no pull sends more
/// than it holds.
proof fn lemma_live_flows(target: nat, subrate: nat, horizon: nat)
    requires
        subrate <= UNIT,
    ensures
        flows(
            live_by(target, subrate),
            done_by(target, subrate),
            live_cont(target, subrate),
            live_stop(target, subrate),
            horizon,
        ),
{
    let a = live_by(target, subrate);
    let b = done_by(target, subrate);
    let cont = live_cont(target, subrate);
    let stop = live_stop(target, subrate);
    assert forall|k: int| 1 <= k <= horizon implies #[trigger] a(k) == sum_below(
        fix_second(cont, k),
        k as nat,
    ) by {
        lemma_live_arrives(target, subrate, k as nat);
    }
    assert forall|n: int| 1 <= n <= horizon implies #[trigger] b(n) == sum_below(
        fix_second(stop, n),
        n as nat,
    ) by {
        lemma_live_arrives(target, subrate, n as nat);
    }
    assert forall|i: int, n: int| n <= i implies #[trigger] cont(i, n) == 0 by {
        lemma_sum_zero(dest(target, subrate, i, n), target);
    }
    assert forall|i: int, m: nat|
        0 <= i <= horizon && m <= horizon + 1 implies #[trigger] sum_below(
        outflow(cont, stop, i),
        m,
    ) <= a(i) by {
        lemma_live_sends(target, subrate, i, m);
    }
}

/// The mass at rest up to a pull is the probability of reaching the target within
/// it.
proof fn lemma_done_sum(target: nat, subrate: nat, pulls: nat)
    ensures
        sum_below(done_by(target, subrate), pulls + 1) == focus_reached_within(
            target,
            subrate,
            pulls,
        ),
    decreases pulls,
{
    let b = done_by(target, subrate);
    if pulls == 0 {
        assert(sum_below(b, 0) == 0);
        assert(sum_below(b, 1) == sum_below(b, 0) + b(0));
    } else {
        lemma_done_sum(target, subrate, (pulls - 1) as nat);
        assert(focus_arrivals(target, subrate)(pulls - 1) == b(pulls as int));
    }
}

/// The mass of the renewals still short of the target on pull `pulls` and the mass
/// that has reached the target by then are no more than one together.
pub proof fn lemma_focus_conserved(target: nat, subrate: nat, pulls: nat)
    requires
        subrate <= UNIT,
    ensures
        live_by(target, subrate)(pulls as int) + focus_reached_within(target, subrate, pulls)
            <= UNIT,
{
    lemma_live_flows(target, subrate, pulls);
    lemma_flow(
        live_by(target, subrate),
        done_by(target, subrate),
        live_cont(target, subrate),
        live_stop(target, subrate),
        pulls,
    );
    lemma_done_sum(target, subrate, pulls);
    let start = level_mass(target, subrate, 0);
    if target > 0 {
        lemma_sum_single(start, target, 0);
    } else {
        assert(sum_below(start, 0) == 0);
    }
}

/// No renewal holds more than probability one, nor do the two that bring the last
/// target on one pull together.
pub proof fn lemma_settled_bounded(target: nat, subrate: nat, pulls: nat, count: int, spent: bool)
    requires
        subrate <= UNIT,
    ensures
        settled(target, subrate, pulls, count, spent) <= UNIT,
        pulls >= 1 ==> focus_reached(target, subrate, pulls) <= UNIT,
{
    lemma_focus_conserved(target, subrate, pulls);
    if pulls >= 1 {
        lemma_sum_term(focus_arrivals(target, subrate), pulls, pulls - 1);
    }
    if 0 <= count < target {
        lemma_sum_term(level_mass(target, subrate, pulls), target, count);
    }
}

/// The probability of reaching the target within a budget of pulls never falls when
/// the budget grows, and never exceeds one, for a banner with focus.
pub proof fn lemma_focus_reached_within_monotone(
    target: nat,
    subrate: nat,
    fewer: nat,
    more: nat,
)
    requires
        subrate <= UNIT,
        fewer <= more,
    ensures
        focus_reached_within(target, subrate, fewer) <= focus_reached_within(target, subrate, more)
            <= UNIT,
{
    lemma_sum_mono(focus_arrivals(target, subrate), fewer, more);
    lemma_focus_conserved(target, subrate, more);
}

/// Pulls that send nothing add nothing to what flows in.
proof fn lemma_inflow_gap(
    target: nat,
    subrate: nat,
    pulls: nat,
    count: int,
    spent: bool,
    fewer: nat,
    more: nat,
)
    requires
        fewer <= more <= pulls,
        forall|from: nat|
            fewer <= from < more ==> #[trigger] arriving(target, subrate, from, pulls, count, spent)
                == 0,
    ensures
        inflow(target, subrate, pulls, count, spent, more) == inflow(
            target,
            subrate,
            pulls,
            count,
            spent,
            fewer,
        ),
    decreases more,
{
    if fewer < more {
        let from = (more - 1) as nat;
        lemma_inflow_gap(target, subrate, pulls, count, spent, fewer, from);
        assert(arriving(target, subrate, from, pulls, count, spent) == 0);
    }
}

/// What flows in grows with the pulls that are counted.
proof fn lemma_inflow_mono(
    target: nat,
    subrate: nat,
    pulls: nat,
    count: int,
    spent: bool,
    fewer: nat,
    more: nat,
)
    requires
        fewer <= more <= pulls,
    ensures
        inflow(target, subrate, pulls, count, spent, fewer) <= inflow(
            target,
            subrate,
            pulls,
            count,
            spent,
            more,
        ),
    decreases more,
{
    if fewer < more {
        lemma_inflow_mono(target, subrate, pulls, count, spent, fewer, (more - 1) as nat);
    }
}

/// Nothing arrives from a renewal that lies too far back, nor at a state that no
/// renewal can send to.
proof fn lemma_nothing_arrives(
    target: nat,
    subrate: nat,
    from: nat,
    pulls: nat,
    count: int,
    spent: bool,
)
    requires
        from < pulls,
        if spent {
            let distance = pulls - from;
            distance > FOCUS_SPAN || RARE_SPAN < distance <= FOCUS_WINDOW || (count == 0
                && distance > RARE_SPAN)
        } else {
            pulls - from > FOCUS_WINDOW || count == 0
        },
    ensures
        arriving(target, subrate, from, pulls, count, spent) == 0,
{
    let distance = pulls - from;
    lemma_scaled_zero(focus_at(subrate, distance));
    lemma_scaled_zero(settled(target, subrate, from, count - 1, false));
    lemma_scaled_zero(settled(target, subrate, from, count - 1, true));
    lemma_scaled_zero(settled(target, subrate, from, count, true));
    lemma_scaled_zero(subrate);
    lemma_scaled_zero((UNIT - subrate) as nat);
    if distance > FOCUS_SPAN {
        lemma_focus_span(subrate, distance);
    }
}

/// Where no target is wanted, no pull brings one.
pub proof fn lemma_focus_no_target(subrate: nat, pulls: nat)
    requires
        pulls >= 1,
    ensures
        focus_reached(0, subrate, pulls) == 0,
{
    assert forall|from: nat| from < pulls implies #[trigger] arriving(
        0,
        subrate,
        from,
        pulls,
        0,
        false,
    ) == 0 by {
        lemma_nothing_arrives(0, subrate, from, pulls, 0, false);
    }
    lemma_inflow_gap(0, subrate, pulls, 0, false, 0, pulls);
    assert forall|from: nat| from < pulls implies #[trigger] arriving(
        0,
        subrate,
        from,
        pulls,
        0,
        true,
    ) == 0 by {
        lemma_scaled_zero(focus_at(subrate, pulls - from));
        lemma_scaled_zero(rare_at(pulls - from));
        lemma_scaled_zero(subrate);
    }
    lemma_inflow_gap(0, subrate, pulls, 0, true, 0, pulls);
}

/// Where one target is wanted, the renewals with no target hold mass before the
/// first pull only.
proof fn lemma_nothing_collected(subrate: nat, pulls: nat)
    ensures
        settled(1, subrate, pulls, 0, false) == (if pulls == 0 {
            UNIT as nat
        } else {
            0
        }),
        settled(1, subrate, pulls, 0, true) == 0,
    decreases pulls,
{
    if pulls > 0 {
        assert forall|from: nat| from < pulls implies #[trigger] arriving(
            1,
            subrate,
            from,
            pulls,
            0,
            false,
        ) == 0 by {
            lemma_nothing_arrives(1, subrate, from, pulls, 0, false);
        }
        lemma_inflow_gap(1, subrate, pulls, 0, false, 0, pulls);
        assert forall|from: nat| from < pulls implies #[trigger] arriving(
            1,
            subrate,
            from,
            pulls,
            0,
            true,
        ) == 0 by {
            lemma_nothing_collected(subrate, from);
            lemma_scaled_zero(focus_at(subrate, pulls - from));
            lemma_scaled_zero(rare_at(pulls - from));
            lemma_scaled_zero(subrate);
            lemma_scaled_zero((UNIT - subrate) as nat);
        }
        lemma_inflow_gap(1, subrate, pulls, 0, true, 0, pulls);
    }
}

/// Where one target is wanted, a banner with focus brings it on pull `pulls` with
/// the probability `focus_at` of that wait.
pub proof fn lemma_first_target(subrate: nat, pulls: nat)
    requires
        pulls >= 1,
    ensures
        focus_reached(1, subrate, pulls) == focus_at(subrate, pulls as int),
{
    assert forall|from: nat| 1 <= from < pulls implies #[trigger] arriving(
        1,
        subrate,
        from,
        pulls,
        1,
        false,
    ) == 0 by {
        lemma_nothing_collected(subrate, from);
        lemma_scaled_zero(focus_at(subrate, pulls - from));
    }
    lemma_inflow_gap(1, subrate, pulls, 1, false, 1, pulls);
    assert forall|from: nat| 1 <= from < pulls implies #[trigger] arriving(
        1,
        subrate,
        from,
        pulls,
        1,
        true,
    ) == 0 by {
        lemma_nothing_collected(subrate, from);
        lemma_scaled_zero(focus_at(subrate, pulls - from));
        lemma_scaled_zero(rare_at(pulls - from));
        lemma_scaled_zero(subrate);
    }
    lemma_inflow_gap(1, subrate, pulls, 1, true, 1, pulls);
    lemma_nothing_collected(subrate, 0);
    lemma_scaled_unit(focus_at(subrate, pulls as int));
    lemma_scaled_zero(rare_at(pulls as int));
    lemma_scaled_zero(subrate);
    assert(inflow(1, subrate, pulls, 1, false, 0) == 0);
    assert(inflow(1, subrate, pulls, 1, true, 0) == 0);
    assert(inflow(1, subrate, pulls, 1, false, 1) == arriving(1, subrate, 0, pulls, 1, false));
    assert(inflow(1, subrate, pulls, 1, true, 1) == arriving(1, subrate, 0, pulls, 1, true));
}

/// Where one target is wanted, a banner with focus brings it within the span of the
/// focus, but for what rounding costs, and never later.
pub proof fn lemma_focus_forces(subrate: nat, pulls: nat)
    requires
        subrate <= UNIT,
    ensures
        focus_reached_within(1, subrate, FOCUS_SPAN as nat) + FOCUS_LOSS >= UNIT,
        pulls > FOCUS_SPAN ==> focus_reached(1, subrate, pulls) == 0,
{
    let span = FOCUS_SPAN as nat;
    lemma_focus_guarantee(subrate);
    lemma_done_sum(1, subrate, span);
    assert forall|n: int| 0 <= n < span + 1 implies #[trigger] done_by(1, subrate)(n)
        == focus_waits(subrate)(n) by {
        if n >= 1 {
            lemma_first_target(subrate, n as nat);
        }
    }
    lemma_sum_eq(done_by(1, subrate), focus_waits(subrate), span + 1);
    if pulls > FOCUS_SPAN {
        lemma_first_target(subrate, pulls);
        lemma_focus_span(subrate, pulls as int);
    }
}

/// Whether the two tables hold the mass of every renewal on the pulls below `rows`:
/// one row for each pull, one entry for each count of targets, `fresh` with the
/// focus unspent and `used` with the focus spent.
pub open spec fn tables_hold(
    fresh: Seq<Vec<u64>>,
    used: Seq<Vec<u64>>,
    target: nat,
    subrate: nat,
    rows: nat,
) -> bool {
    &&& fresh.len() == rows
    &&& used.len() == rows
    &&& forall|q: int| 0 <= q < rows ==> (#[trigger] fresh[q]).len() == target + 1
    &&& forall|q: int| 0 <= q < rows ==> (#[trigger] used[q]).len() == target + 1
    &&& forall|q: int, t: int|
        0 <= q < rows && 0 <= t <= target ==> #[trigger] fresh[q][t] == settled(
            target,
            subrate,
            q as nat,
            t,
            false,
        )
    &&& forall|q: int, t: int|
        0 <= q < rows && 0 <= t <= target ==> #[trigger] used[q][t] == settled(
            target,
            subrate,
            q as nat,
            t,
            true,
        )
}

/// The mass of the renewal on pull `pulls` with `count` targets and the focus
/// unspent, from the rows of the pulls before.
fn fresh_inflow(
    fresh: &Vec<Vec<u64>>,
    used: &Vec<Vec<u64>>,
    focus: &Vec<u64>,
    target: usize,
    subrate: u64,
    pulls: usize,
    count: usize,
) -> (sum: u64)
    requires
        tables_hold(fresh@, used@, target as nat, subrate as nat, pulls as nat),
        holds_focus(focus@, subrate as nat),
        subrate <= UNIT,
        pulls >= 1,
        count <= target,
    ensures
        sum == settled(target as nat, subrate as nat, pulls as nat, count as int, false),
{
    let first: usize = if count == 0 {
        pulls
    } else if pulls > FOCUS_WINDOW {
        pulls - FOCUS_WINDOW
    } else {
        0
    };
    proof {
        assert forall|from: nat| 0 <= from < first implies #[trigger] arriving(
            target as nat,
            subrate as nat,
            from,
            pulls as nat,
            count as int,
            false,
        ) == 0 by {
            lemma_nothing_arrives(
                target as nat,
                subrate as nat,
                from,
                pulls as nat,
                count as int,
                false,
            );
        }
        lemma_inflow_gap(
            target as nat,
            subrate as nat,
            pulls as nat,
            count as int,
            false,
            0,
            first as nat,
        );
        lemma_settled_bounded(target as nat, subrate as nat, pulls as nat, count as int, false);
    }
    let mut sum: u64 = 0;
    let mut from: usize = first;
    while from < pulls
        invariant
            tables_hold(fresh@, used@, target as nat, subrate as nat, pulls as nat),
            holds_focus(focus@, subrate as nat),
            subrate <= UNIT,
            1 <= count <= target || from == pulls,
            first <= from <= pulls,
            pulls <= first + FOCUS_WINDOW,
            settled(target as nat, subrate as nat, pulls as nat, count as int, false) <= UNIT,
            sum == inflow(
                target as nat,
                subrate as nat,
                pulls as nat,
                count as int,
                false,
                from as nat,
            ),
        decreases pulls - from,
    {
        proof {
            lemma_inflow_mono(
                target as nat,
                subrate as nat,
                pulls as nat,
                count as int,
                false,
                (from + 1) as nat,
                pulls as nat,
            );
            lemma_focus_at_bounded(subrate as nat, pulls - from);
        }
        sum = sum + times(fresh[from][count - 1], focus[pulls - from]);
        from += 1;
    }
    sum
}

/// The mass of the renewal on pull `pulls` with `count` targets and the focus spent,
/// from the rows of the pulls before.
fn used_inflow(
    fresh: &Vec<Vec<u64>>,
    used: &Vec<Vec<u64>>,
    focus: &Vec<u64>,
    rare: &Vec<u64>,
    target: usize,
    subrate: u64,
    pulls: usize,
    count: usize,
) -> (sum: u64)
    requires
        tables_hold(fresh@, used@, target as nat, subrate as nat, pulls as nat),
        holds_focus(focus@, subrate as nat),
        holds_rare(rare@),
        subrate <= UNIT,
        pulls >= 1,
        count <= target,
    ensures
        sum == settled(target as nat, subrate as nat, pulls as nat, count as int, true),
{
    let forced: usize = if pulls > FOCUS_WINDOW {
        pulls - FOCUS_WINDOW
    } else {
        0
    };
    let first: usize = if count == 0 {
        forced
    } else if pulls > FOCUS_SPAN {
        pulls - FOCUS_SPAN
    } else {
        0
    };
    let near: usize = if pulls > RARE_SPAN {
        pulls - RARE_SPAN
    } else {
        0
    };
    proof {
        assert forall|from: nat|
            (0 <= from < first || forced <= from < near) implies #[trigger] arriving(
            target as nat,
            subrate as nat,
            from,
            pulls as nat,
            count as int,
            true,
        ) == 0 by {
            lemma_nothing_arrives(
                target as nat,
                subrate as nat,
                from,
                pulls as nat,
                count as int,
                true,
            );
        }
        lemma_inflow_gap(
            target as nat,
            subrate as nat,
            pulls as nat,
            count as int,
            true,
            0,
            first as nat,
        );
        lemma_inflow_gap(
            target as nat,
            subrate as nat,
            pulls as nat,
            count as int,
            true,
            forced as nat,
            near as nat,
        );
        lemma_settled_bounded(target as nat, subrate as nat, pulls as nat, count as int, true);
    }
    let mut sum: u64 = 0;
    let mut from: usize = first;
    while from < forced
        invariant
            tables_hold(fresh@, used@, target as nat, subrate as nat, pulls as nat),
            holds_focus(focus@, subrate as nat),
            subrate <= UNIT,
            1 <= count <= target || from == forced,
            first <= from <= forced <= pulls,
            forced + FOCUS_WINDOW == pulls || forced == 0,
            pulls <= first + FOCUS_SPAN,
            settled(target as nat, subrate as nat, pulls as nat, count as int, true) <= UNIT,
            sum == inflow(
                target as nat,
                subrate as nat,
                pulls as nat,
                count as int,
                true,
                from as nat,
            ),
        decreases forced - from,
    {
        proof {
            lemma_inflow_mono(
                target as nat,
                subrate as nat,
                pulls as nat,
                count as int,
                true,
                (from + 1) as nat,
                pulls as nat,
            );
            lemma_focus_at_bounded(subrate as nat, pulls - from);
            lemma_scaled_zero(settled(target as nat, subrate as nat, from as nat, count - 1, true));
            lemma_scaled_zero(
                settled(target as nat, subrate as nat, from as nat, count as int, true),
            );
            lemma_scaled_zero(subrate as nat);
            lemma_scaled_zero((UNIT - subrate) as nat);
        }
        sum = sum + times(fresh[from][count - 1], focus[pulls - from]);
        from += 1;
    }
    from = near;
    while from < pulls
        invariant
            tables_hold(fresh@, used@, target as nat, subrate as nat, pulls as nat),
            holds_rare(rare@),
            subrate <= UNIT,
            count <= target,
            near <= from <= pulls,
            pulls <= near + RARE_SPAN,
            settled(target as nat, subrate as nat, pulls as nat, count as int, true) <= UNIT,
            sum == inflow(
                target as nat,
                subrate as nat,
                pulls as nat,
                count as int,
                true,
                from as nat,
            ),
        decreases pulls - from,
    {
        proof {
            lemma_inflow_mono(
                target as nat,
                subrate as nat,
                pulls as nat,
                count as int,
                true,
                (from + 1) as nat,
                pulls as nat,
            );
            lemma_waits_total((pulls - from) as nat);
            lemma_scaled_zero(rare_at(pulls - from));
            lemma_scaled_zero(subrate as nat);
        }
        let wait: u64 = rare[pulls - from];
        let ghost before = sum as nat;
        let ghost below = settled(target as nat, subrate as nat, from as nat, count - 1, true);
        let ghost same = settled(target as nat, subrate as nat, from as nat, count as int, true);
        if count > 0 {
            sum = sum + times(times(used[from][count - 1], wait), subrate);
        }
        let ghost between = sum as nat;
        assert(between == before + scaled(scaled(below, rare_at(pulls - from)), subrate as nat));
        if count < target {
            sum = sum + times(times(used[from][count], wait), UNIT - subrate);
        }
        assert(sum == between + (if count < target {
            scaled(scaled(same, rare_at(pulls - from)), (UNIT - subrate) as nat)
        } else {
            0
        }));
        from += 1;
    }
    sum
}

/// The masses of the renewals before the first pull: all mass on nothing collected
/// with the focus unspent.
fn first_rows(target: usize, Ghost(subrate): Ghost<nat>) -> (rows: (Vec<u64>, Vec<u64>))
    requires
        target < usize::MAX,
    ensures
        rows.0.len() == target + 1,
        rows.1.len() == target + 1,
        forall|t: int|
            0 <= t <= target ==> #[trigger] rows.0[t] == settled(
                target as nat,
                subrate,
                0,
                t,
                false,
            ),
        forall|t: int|
            0 <= t <= target ==> #[trigger] rows.1[t] == settled(
                target as nat,
                subrate,
                0,
                t,
                true,
            ),
{
    let mut fresh: Vec<u64> = Vec::new();
    let mut used: Vec<u64> = Vec::new();
    let mut count: usize = 0;
    while count <= target
        invariant
            target < usize::MAX,
            count <= target + 1,
            fresh.len() == count,
            used.len() == count,
            forall|t: int|
                0 <= t < count ==> #[trigger] fresh[t] == settled(
                    target as nat,
                    subrate,
                    0,
                    t,
                    false,
                ),
            forall|t: int|
                0 <= t < count ==> #[trigger] used[t] == settled(
                    target as nat,
                    subrate,
                    0,
                    t,
                    true,
                ),
        decreases target + 1 - count,
    {
        fresh.push(if count == 0 { UNIT } else { 0 });
        used.push(0);
        count += 1;
    }
    (fresh, used)
}

/// The masses of the renewals on pull `pulls`, from the rows of the pulls before.
fn next_rows(
    fresh: &Vec<Vec<u64>>,
    used: &Vec<Vec<u64>>,
    focus: &Vec<u64>,
    rare: &Vec<u64>,
    target: usize,
    subrate: u64,
    pulls: usize,
) -> (rows: (Vec<u64>, Vec<u64>))
    requires
        tables_hold(fresh@, used@, target as nat, subrate as nat, pulls as nat),
        holds_focus(focus@, subrate as nat),
        holds_rare(rare@),
        subrate <= UNIT,
        pulls >= 1,
        target < usize::MAX,
    ensures
        rows.0.len() == target + 1,
        rows.1.len() == target + 1,
        forall|t: int|
            0 <= t <= target ==> #[trigger] rows.0[t] == settled(
                target as nat,
                subrate as nat,
                pulls as nat,
                t,
                false,
            ),
        forall|t: int|
            0 <= t <= target ==> #[trigger] rows.1[t] == settled(
                target as nat,
                subrate as nat,
                pulls as nat,
                t,
                true,
            ),
{
    let mut fresh_row: Vec<u64> = Vec::new();
    let mut used_row: Vec<u64> = Vec::new();
    let mut count: usize = 0;
    while count <= target
        invariant
            tables_hold(fresh@, used@, target as nat, subrate as nat, pulls as nat),
            holds_focus(focus@, subrate as nat),
            holds_rare(rare@),
            subrate <= UNIT,
            pulls >= 1,
            target < usize::MAX,
            count <= target + 1,
            fresh_row.len() == count,
            used_row.len() == count,
            forall|t: int|
                0 <= t < count ==> #[trigger] fresh_row[t] == settled(
                    target as nat,
                    subrate as nat,
                    pulls as nat,
                    t,
                    false,
                ),
            forall|t: int|
                0 <= t < count ==> #[trigger] used_row[t] == settled(
                    target as nat,
                    subrate as nat,
                    pulls as nat,
                    t,
                    true,
                ),
        decreases target + 1 - count,
    {
        fresh_row.push(fresh_inflow(fresh, used, focus, target, subrate, pulls, count));
        used_row.push(used_inflow(fresh, used, focus, rare, target, subrate, pulls, count));
        count += 1;
    }
    (fresh_row, used_row)
}

/// The distribution of the pull on which a banner's target count is first reached:
/// entry `i` is the probability that the `target`-th target comes on pull `i + 1`,
/// for each pull of the budget `pulls`. With `focus` the banner forces the target
/// after the focus window; without, every rare outcome is the target by chance
/// alone.
pub fn banner_pdist(target: usize, pulls: usize, subrate: u64, focus: bool) -> (pdist: Vec<u64>)
    requires
        target < usize::MAX,
        0 < subrate <= UNIT,
    ensures
        pdist.len() == pulls,
        forall|i: int|
            0 <= i < pulls ==> #[trigger] pdist[i] == reached_by(
                target as nat,
                subrate as nat,
                (i + 1) as nat,
                focus,
            ),
        total(pdist@) == reached_within_by(target as nat, subrate as nat, pulls as nat, focus),
        total(pdist@) <= UNIT,
{
    if !focus {
        return crate::simple::banner_pdist(target, pulls, subrate);
    }
    let rare = rare_table();
    let unmet_tab = unmet_table(subrate, &rare);
    let focus_tab = focus_table(subrate, &unmet_tab, &rare);
    let start = first_rows(target, Ghost(subrate as nat));
    let mut fresh: Vec<Vec<u64>> = Vec::new();
    let mut used: Vec<Vec<u64>> = Vec::new();
    fresh.push(start.0);
    used.push(start.1);
    let mut pdist: Vec<u64> = Vec::new();
    let mut done: usize = 0;
    while done < pulls
        invariant
            tables_hold(fresh@, used@, target as nat, subrate as nat, (done + 1) as nat),
            holds_focus(focus_tab@, subrate as nat),
            holds_rare(rare@),
            subrate <= UNIT,
            target < usize::MAX,
            done <= pulls,
            pdist.len() == done,
            forall|i: int|
                0 <= i < done ==> #[trigger] pdist[i] == focus_reached(
                    target as nat,
                    subrate as nat,
                    (i + 1) as nat,
                ),
        decreases pulls - done,
    {
        let pull: usize = done + 1;
        let rows = next_rows(&fresh, &used, &focus_tab, &rare, target, subrate, pull);
        proof {
            lemma_settled_bounded(target as nat, subrate as nat, pull as nat, target as int, false);
        }
        pdist.push(rows.0[target] + rows.1[target]);
        fresh.push(rows.0);
        used.push(rows.1);
        done += 1;
    }
    proof {
        lemma_sum_eq(entries(pdist@), focus_arrivals(target as nat, subrate as nat), pulls as nat);
        lemma_focus_conserved(target as nat, subrate as nat, pulls as nat);
    }
    pdist
}

/// The bonus pulls of the banners, in their order.
pub open spec fn bonus_of(banners: Seq<Banner>) -> Seq<usize> {
    Seq::new(banners.len(), |i: int| banners[i].bonus_pulls)
}

/// Whether the banner's subrate is a probability other than zero.
pub open spec fn subrate_ok(banner: Banner) -> bool {
    0 < banner.subrate <= UNIT
}

/// The entry at `k` of the padded distribution of `banner`, whose own entries are
/// those of the first `most` pulls.
pub open spec fn entry(banner: Banner, most: int, k: int) -> nat {
    if 0 <= k < most {
        reached_by(
            banner.target as nat,
            banner.subrate as nat,
            (k + 1) as nat,
            banner.has_focus,
        )
    } else {
        0
    }
}

/// Whether `p` is what the transform needs for `banners` and `pulls` shared pulls.
pub open spec fn prepared_for(p: Prepared, banners: Seq<Banner>, pulls: nat) -> bool {
    &&& p.conv_size == conv_size(pulls, bonus_of(banners))
    &&& p.window == window(pulls, bonus_of(banners))
    &&& p.pdists.len() == banners.len()
    &&& forall|i: int| 0 <= i < banners.len() ==> (#[trigger] p.pdists[i]).len() == p.conv_size
    &&& forall|i: int, k: int|
        0 <= i < banners.len() && 0 <= k < p.conv_size ==> #[trigger] p.pdists[i][k] == entry(
            banners[i],
            allowance(pulls, banners[i].bonus_pulls as nat, banners.len()),
            k,
        )
}

/// Everything that combining `banners` under a budget of `pulls` shared pulls needs
/// before the transform: the distribution of each banner over the most pulls that
/// it can get, padded with zeros to the length of the convolution, that length, and
/// the number of leading entries of the convolution that lie within the budget.
pub fn prepare(banners: &Vec<Banner>, pulls: usize) -> (r: Result<Prepared, Rejection>)
    ensures
        match r {
            Ok(p) => {
                &&& banners.len() >= 1
                &&& forall|i: int| 0 <= i < banners.len() ==> subrate_ok(#[trigger] banners[i])
                &&& forall|i: int|
                    0 <= i < banners.len() ==> (#[trigger] banners[i]).target < usize::MAX
                &&& !underfunded(pulls as nat, bonus_of(banners@))
                &&& prepared_for(p, banners@, pulls as nat)
            },
            Err(Rejection::NoBanners) => banners.len() == 0,
            Err(Rejection::Subrate) => exists|i: int|
                0 <= i < banners.len() && !subrate_ok(#[trigger] banners[i]),
            Err(Rejection::Underflow) => {
                &&& forall|i: int| 0 <= i < banners.len() ==> subrate_ok(#[trigger] banners[i])
                &&& underfunded(pulls as nat, bonus_of(banners@))
            },
            Err(Rejection::Overflow) => {
                &&& banners.len() >= 1
                &&& forall|i: int| 0 <= i < banners.len() ==> subrate_ok(#[trigger] banners[i])
                &&& !underfunded(pulls as nat, bonus_of(banners@))
                &&& (conv_size(pulls as nat, bonus_of(banners@)) > usize::MAX || window(
                    pulls as nat,
                    bonus_of(banners@),
                ) > usize::MAX || exists|i: int|
                    0 <= i < banners.len() && (#[trigger] banners[i]).target == usize::MAX)
            },
        },
{
    let count: usize = banners.len();
    if count == 0 {
        return Err(Rejection::NoBanners);
    }
    let mut bonus: Vec<usize> = Vec::new();
    let mut i: usize = 0;
    while i < count
        invariant
            count == banners.len(),
            i <= count,
            bonus.len() == i,
            forall|j: int| 0 <= j < i ==> subrate_ok(#[trigger] banners[j]),
            forall|j: int| 0 <= j < i ==> #[trigger] bonus[j] == banners[j].bonus_pulls,
        decreases count - i,
    {
        let subrate: u64 = banners[i].subrate;
        if subrate == 0 || subrate > UNIT {
            return Err(Rejection::Subrate);
        }
        bonus.push(banners[i].bonus_pulls);
        i += 1;
    }
    assert(bonus@ =~= bonus_of(banners@));
    let laid = match plan(&bonus, pulls) {
        Ok(laid) => laid,
        Err(BudgetError::NoBanners) => {
            return Err(Rejection::NoBanners);
        },
        Err(BudgetError::Underflow) => {
            return Err(Rejection::Underflow);
        },
        Err(BudgetError::Overflow) => {
            return Err(Rejection::Overflow);
        },
    };
    let mut j: usize = 0;
    while j < count
        invariant
            count == banners.len(),
            j <= count,
            forall|k: int| 0 <= k < count ==> subrate_ok(#[trigger] banners[k]),
            !underfunded(pulls as nat, bonus_of(banners@)),
            forall|k: int| 0 <= k < j ==> (#[trigger] banners[k]).target < usize::MAX,
        decreases count - j,
    {
        if banners[j].target == usize::MAX {
            return Err(Rejection::Overflow);
        }
        j += 1;
    }
    let mut pdists: Vec<Vec<u64>> = Vec::new();
    let mut b: usize = 0;
    while b < count
        invariant
            count == banners.len(),
            b <= count,
            bonus@ == bonus_of(banners@),
            laid.max_pulls.len() == count,
            forall|k: int|
                0 <= k < count ==> #[trigger] laid.max_pulls[k] == allowance(
                    pulls as nat,
                    bonus[k] as nat,
                    count as nat,
                ),
            laid.conv_size == sum_below(counts(laid.max_pulls@), count as nat),
            forall|k: int| 0 <= k < count ==> subrate_ok(#[trigger] banners[k]),
            forall|k: int| 0 <= k < count ==> (#[trigger] banners[k]).target < usize::MAX,
            pdists.len() == b,
            forall|k: int| 0 <= k < b ==> (#[trigger] pdists[k]).len() == laid.conv_size,
            forall|k: int, n: int|
                0 <= k < b && 0 <= n < laid.conv_size ==> #[trigger] pdists[k][n] == entry(
                    banners[k],
                    allowance(pulls as nat, banners[k].bonus_pulls as nat, count as nat),
                    n,
                ),
        decreases count - b,
    {
        let banner = banners[b];
        let most: usize = laid.max_pulls[b];
        proof {
            lemma_sum_term(counts(laid.max_pulls@), count as nat, b as int);
        }
        let own = banner_pdist(banner.target, most, banner.subrate, banner.has_focus);
        let ghost own_seq = own@;
        let wide = padded(own, laid.conv_size);
        assert forall|n: int| 0 <= n < laid.conv_size implies #[trigger] wide[n] == entry(
            banners[b as int],
            allowance(pulls as nat, banners[b as int].bonus_pulls as nat, count as nat),
            n,
        ) by {
            assert(wide[n] == padded_entry(own_seq, n));
        }
        pdists.push(wide);
        b += 1;
    }
    Ok(Prepared { pdists, conv_size: laid.conv_size, window: laid.window })
}

} // verus!
