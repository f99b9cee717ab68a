//! The waits for a rare outcome, and for the target under an unspent focus.

use vstd::prelude::*;
use crate::prob::{
    lemma_floor, lemma_scaled_le, lemma_scaled_split, lemma_scaled_split_loss, lemma_scaled_zero,
    lemma_shares, lemma_shares_loss, scaled, shares, times, UNIT,
};
use crate::rates::{pity_rate, rate};
use crate::renewal::{flows, held, lemma_flow, lemma_flow_balance, outflow};
use crate::simple::spared;
use crate::sums::{
    delayed, fix_second, lemma_sum_add, lemma_sum_delayed, lemma_sum_eq, lemma_sum_le,
    lemma_sum_mono, lemma_sum_term, lemma_sum_zero, lemma_sum_zero_tail, sum_below,
};

verus! {

/// The number of pulls within which an unspent focus does not yet force the target.
pub const FOCUS_WINDOW: usize = 150;

/// The longest wait for a rare outcome that is counted, in pulls.
pub const RARE_SPAN: usize = 98;

/// The latest pull on which an unspent focus gives the target.
pub const FOCUS_SPAN: usize = 248;

/// The probability that, from pity level zero, the next rare outcome comes on pull
/// `distance` exactly.
pub open spec fn rare_at(distance: int) -> nat {
    if 1 <= distance <= RARE_SPAN {
        (spared((distance - 1) as nat) - spared(distance as nat)) as nat
    } else {
        0
    }
}

/// The probability that a rare outcome comes on pull `pulls` exactly, within the
/// focus window, and that neither it nor any rare outcome before it was the target.
pub open spec fn unmet(subrate: nat, pulls: nat) -> nat
    decreases pulls, pulls + 1,
{
    if pulls == 0 {
        UNIT as nat
    } else if pulls <= FOCUS_WINDOW {
        unmet_from(subrate, pulls, pulls)
    } else {
        0
    }
}

/// The part of `unmet(subrate, pulls)` whose rare outcome before the last came on
/// one of the pulls below `sources`.
pub open spec fn unmet_from(subrate: nat, pulls: nat, sources: nat) -> nat
    decreases pulls, sources,
{
    if sources == 0 || sources > pulls {
        0
    } else {
        let from = (sources - 1) as nat;
        unmet_from(subrate, pulls, from) + scaled(
            scaled(unmet(subrate, from), rare_at(pulls - from)),
            (UNIT - subrate) as nat,
        )
    }
}

/// By the pull `from` of the rare outcome before: the probability that an unspent
/// focus gives the target on pull `pulls` exactly after unwanted rare outcomes up to
/// `from`. Within the focus window the rare outcome on `pulls` is the target by
/// chance; after it, by force.
pub open spec fn focus_term(subrate: nat, pulls: int) -> spec_fn(int) -> nat {
    |from: int|
        if from < 0 || from >= pulls {
            0
        } else if pulls <= FOCUS_WINDOW {
            scaled(scaled(unmet(subrate, from as nat), rare_at(pulls - from)), subrate)
        } else {
            scaled(unmet(subrate, from as nat), rare_at(pulls - from))
        }
}

/// The probability that, from pity level zero and with the focus unspent, the
/// target comes on pull `pulls` exactly.
pub open spec fn focus_at(subrate: nat, pulls: int) -> nat {
    if pulls <= 0 {
        0
    } else {
        sum_below(focus_term(subrate, pulls), pulls as nat)
    }
}

/// By the pull `from` of the rare outcome before: the probability that a rare
/// outcome other than the target comes on pull `pulls` exactly, within the focus
/// window, after unwanted rare outcomes up to `from`.
pub open spec fn unmet_term(subrate: nat, pulls: int) -> spec_fn(int) -> nat {
    |from: int|
        if 0 <= from < pulls <= FOCUS_WINDOW {
            scaled(
                scaled(unmet(subrate, from as nat), rare_at(pulls - from)),
                (UNIT - subrate) as nat,
            )
        } else {
            0
        }
}

/// What is still unmet on a pull is the sum of its terms.
pub proof fn lemma_unmet_sum(subrate: nat, pulls: nat, sources: nat)
    requires
        sources <= pulls <= FOCUS_WINDOW,
    ensures
        unmet_from(subrate, pulls, sources) == sum_below(
            unmet_term(subrate, pulls as int),
            sources,
        ),
    decreases sources,
{
    if sources > 0 {
        lemma_unmet_sum(subrate, pulls, (sources - 1) as nat);
    }
}

/// The waits for a rare outcome, by their length.
pub open spec fn waits() -> spec_fn(int) -> nat {
    |distance: int| rare_at(distance)
}

/// The waits for the target under an unspent focus, by their length.
pub open spec fn focus_waits(subrate: nat) -> spec_fn(int) -> nat {
    |pulls: int| focus_at(subrate, pulls)
}

/// Whether `tab` holds the probabilities `rare_at` of the waits up to `RARE_SPAN`.
pub open spec fn holds_rare(tab: Seq<u64>) -> bool {
    &&& tab.len() == RARE_SPAN + 1
    &&& forall|d: int| 0 <= d <= RARE_SPAN ==> #[trigger] tab[d] == rare_at(d)
}

/// Whether `tab` holds the probabilities `unmet` of the pulls up to the end of the
/// focus window.
pub open spec fn holds_unmet(tab: Seq<u64>, subrate: nat) -> bool {
    &&& tab.len() == FOCUS_WINDOW + 1
    &&& forall|k: int| 0 <= k <= FOCUS_WINDOW ==> #[trigger] tab[k] == unmet(subrate, k as nat)
}

/// Whether `tab` holds the probabilities `focus_at` of the pulls up to `FOCUS_SPAN`.
pub open spec fn holds_focus(tab: Seq<u64>, subrate: nat) -> bool {
    &&& tab.len() == FOCUS_SPAN + 1
    &&& forall|n: int| 0 <= n <= FOCUS_SPAN ==> #[trigger] tab[n] == focus_at(subrate, n)
}

/// The probability that no rare outcome has come falls with each pull.
pub proof fn lemma_spared_falls(pulls: nat)
    ensures
        spared(pulls + 1) <= spared(pulls) <= UNIT,
    decreases pulls,
{
    if pulls > 0 {
        lemma_spared_falls((pulls - 1) as nat);
    }
    lemma_scaled_le(spared(pulls), (UNIT - rate(pulls as int)) as nat);
}

/// The power of fifty.
spec fn fifties(steps: nat) -> nat
    decreases steps,
{
    if steps == 0 {
        1
    } else {
        50 * fifties((steps - 1) as nat)
    }
}

/// The product of the numbers from one up.
spec fn factorial(steps: int) -> int
    decreases steps,
{
    if steps <= 0 {
        1
    } else {
        steps * factorial(steps - 1)
    }
}

/// No factorial is below one.
proof fn lemma_factorial_positive(steps: int)
    ensures
        factorial(steps) >= 1,
    decreases steps,
{
    if steps > 0 {
        lemma_factorial_positive(steps - 1);
        assert(steps * factorial(steps - 1) >= 1) by (nonlinear_arith)
            requires
                steps >= 1,
                factorial(steps - 1) >= 1,
        ;
    }
}

/// On the late pity levels a miss keeps one fiftieth of the mass for each level that
/// is left.
proof fn lemma_late_miss(level: nat)
    requires
        50 <= level < RARE_SPAN,
    ensures
        spared(level + 1) * 50 <= spared(level) * (RARE_SPAN - level),
{
    let s = spared(level);
    let s1 = spared(level + 1);
    let k = (UNIT - rate(level as int)) as nat;
    lemma_floor(s * k, s1);
    let left = (RARE_SPAN - level) as nat;
    assert(s * k == (s * left) * 20_000_000_000_000_000) by (nonlinear_arith)
        requires
            k == left * 20_000_000_000_000_000,
    ;
    assert(s1 * 1_000_000_000_000_000_000 == (s1 * 50) * 20_000_000_000_000_000)
        by (nonlinear_arith);
}

/// What the last `steps` misses keep of a mass, all at once.
proof fn lemma_last_misses(steps: nat)
    requires
        steps <= 20,
    ensures
        spared(RARE_SPAN as nat) * fifties(steps) <= spared((RARE_SPAN - steps) as nat)
            * factorial(steps as int),
    decreases steps,
{
    if steps > 0 {
        let before = (steps - 1) as nat;
        lemma_last_misses(before);
        let level = (RARE_SPAN - steps) as nat;
        lemma_late_miss(level);
        lemma_factorial_positive(before as int);
        let last = spared(RARE_SPAN as nat);
        let s = spared(level);
        let s1 = spared(level + 1);
        let f = factorial(before as int);
        assert(last * fifties(steps) == (last * fifties(before)) * 50) by (nonlinear_arith)
            requires
                fifties(steps) == 50 * fifties(before),
        ;
        assert((last * fifties(before)) * 50 <= (s1 * f) * 50) by (nonlinear_arith)
            requires
                last * fifties(before) <= s1 * f,
        ;
        assert((s1 * f) * 50 == (s1 * 50) * f) by (nonlinear_arith);
        assert((s1 * 50) * f <= (s * steps) * f) by (nonlinear_arith)
            requires
                s1 * 50 <= s * steps,
                f >= 0,
        ;
        assert((s * steps) * f == s * factorial(steps as int)) by (nonlinear_arith)
            requires
                factorial(steps as int) == steps * f,
        ;
    } else {
        assert(spared(RARE_SPAN as nat) * 1 == spared(RARE_SPAN as nat) * 1);
    }
}

/// The twentieth power of fifty, and the factorial of twenty.
proof fn lemma_twenty()
    ensures
        fifties(20) == 9_536_743_164_062_500_000_000_000_000_000_000,
        factorial(20) == 2_432_902_008_176_640_000,
{
    assert(fifties(20) == 9_536_743_164_062_500_000_000_000_000_000_000) by {
        reveal_with_fuel(fifties, 21);
    }
    assert(factorial(0) == 1);
    assert(factorial(1) == 1);
    assert(factorial(2) == 2);
    assert(factorial(3) == 6);
    assert(factorial(4) == 24);
    assert(factorial(5) == 120);
    assert(factorial(6) == 720);
    assert(factorial(7) == 5_040);
    assert(factorial(8) == 40_320);
    assert(factorial(9) == 362_880);
    assert(factorial(10) == 3_628_800);
    assert(factorial(11) == 39_916_800);
    assert(factorial(12) == 479_001_600);
    assert(factorial(13) == 6_227_020_800);
    assert(factorial(14) == 87_178_291_200);
    assert(factorial(15) == 1_307_674_368_000);
    assert(factorial(16) == 20_922_789_888_000);
    assert(factorial(17) == 355_687_428_096_000);
    assert(factorial(18) == 6_402_373_705_728_000);
    assert(factorial(19) == 121_645_100_408_832_000);
    assert(factorial(20) == 2_432_902_008_176_640_000);
}

/// After the last pity level but one, next to nothing is left that has met no rare
/// outcome.
pub proof fn lemma_spared_runs_out()
    ensures
        spared(RARE_SPAN as nat) <= 255,
{
    lemma_last_misses(20);
    lemma_spared_falls(78);
    lemma_twenty();
    let last = spared(RARE_SPAN as nat);
    let s = spared(78);
    assert(last * 9_536_743_164_062_500_000_000_000_000_000_000 <= s
        * 2_432_902_008_176_640_000) by (nonlinear_arith)
        requires
            last * fifties(20) <= s * factorial(20),
            fifties(20) == 9_536_743_164_062_500_000_000_000_000_000_000,
            factorial(20) == 2_432_902_008_176_640_000,
    ;
}

/// The waits of up to `k` pulls have the probability that is not spared by then.
proof fn lemma_waits_sum(k: nat)
    ensures
        sum_below(waits(), k) == UNIT - spared(
            if k <= 1 {
                0
            } else if k - 1 <= RARE_SPAN {
                (k - 1) as nat
            } else {
                RARE_SPAN as nat
            },
        ),
    decreases k,
{
    if k > 0 {
        lemma_waits_sum((k - 1) as nat);
        if k >= 2 {
            lemma_spared_falls((k - 2) as nat);
        }
    }
}

/// The waits for a rare outcome have no more than probability one together, and so
/// has each.
pub proof fn lemma_waits_total(k: nat)
    ensures
        sum_below(waits(), k) <= UNIT,
        rare_at(k as int) <= UNIT,
{
    lemma_waits_sum(k);
    lemma_waits_sum(k + 1);
}

/// What is unmet, by pull.
spec fn unmet_by(subrate: nat) -> spec_fn(int) -> nat {
    |k: int|
        if k < 0 {
            0
        } else {
            unmet(subrate, k as nat)
        }
}

/// What the unmet mass on pull `from` sends to the unmet mass on pull `to`.
spec fn unmet_cont(subrate: nat) -> spec_fn(int, int) -> nat {
    |from: int, to: int| unmet_term(subrate, to)(from)
}

/// What the unmet mass on pull `from` sends to the target on pull `to`.
spec fn unmet_stop(subrate: nat) -> spec_fn(int, int) -> nat {
    |from: int, to: int| focus_term(subrate, to)(from)
}

/// The unmet mass on a pull sends no more than it holds.
proof fn lemma_unmet_sends(subrate: nat, from: int, m: nat)
    requires
        subrate <= UNIT,
        0 <= from,
    ensures
        sum_below(outflow(unmet_cont(subrate), unmet_stop(subrate), from), m) <= unmet(
            subrate,
            from as nat,
        ),
{
    let x = unmet(subrate, from as nat);
    let w = delayed(waits(), from);
    let out = outflow(unmet_cont(subrate), unmet_stop(subrate), from);
    assert forall|to: int| 0 <= to < m implies #[trigger] out(to) <= shares(x, w)(to) by {
        let part = scaled(x, rare_at(to - from));
        assert(w(to) == rare_at(to - from));
        if to > from {
            lemma_scaled_split(part, subrate);
        }
    }
    lemma_sum_le(out, shares(x, w), m);
    lemma_sum_delayed(waits(), from as nat, m);
    lemma_waits_total(
        if m >= from {
            (m - from) as nat
        } else {
            0
        },
    );
    lemma_shares(x, w, m);
}

/// The chain of unmet rare outcomes is a flow: mass moves forward only, and no pull
/// sends more than it holds.
proof fn lemma_unmet_flows(subrate: nat, horizon: nat)
    requires
        subrate <= UNIT,
    ensures
        flows(
            unmet_by(subrate),
            focus_waits(subrate),
            unmet_cont(subrate),
            unmet_stop(subrate),
            horizon,
        ),
{
    let a = unmet_by(subrate);
    let b = focus_waits(subrate);
    let cont = unmet_cont(subrate);
    let stop = unmet_stop(subrate);
    assert forall|k: int| 1 <= k <= horizon implies #[trigger] a(k) == sum_below(
        fix_second(cont, k),
        k as nat,
    ) by {
        if k <= FOCUS_WINDOW {
            lemma_unmet_sum(subrate, k as nat, k as nat);
            lemma_sum_eq(unmet_term(subrate, k), fix_second(cont, k), k as nat);
        } else {
            lemma_sum_zero(fix_second(cont, k), k as nat);
        }
    }
    assert forall|n: int| 1 <= n <= horizon implies #[trigger] b(n) == sum_below(
        fix_second(stop, n),
        n as nat,
    ) by {
        lemma_sum_eq(focus_term(subrate, n), fix_second(stop, n), n as nat);
    }
    assert forall|i: int, m: nat|
        0 <= i <= horizon && m <= horizon + 1 implies #[trigger] sum_below(
        outflow(cont, stop, i),
        m,
    ) <= a(i) by {
        lemma_unmet_sends(subrate, i, m);
    }
}

/// The waits for the target under an unspent focus have no more than probability one
/// together, and so has what is still unmet on any one pull.
pub proof fn lemma_focus_total(subrate: nat, k: nat)
    requires
        subrate <= UNIT,
    ensures
        unmet(subrate, k) + sum_below(focus_waits(subrate), k + 1) <= UNIT,
{
    lemma_unmet_flows(subrate, k);
    lemma_flow(
        unmet_by(subrate),
        focus_waits(subrate),
        unmet_cont(subrate),
        unmet_stop(subrate),
        k,
    );
}

/// Each wait for the target under an unspent focus has no more than probability
/// one.
pub proof fn lemma_focus_at_bounded(subrate: nat, pulls: int)
    requires
        subrate <= UNIT,
    ensures
        focus_at(subrate, pulls) <= UNIT,
{
    if pulls > 0 {
        lemma_focus_total(subrate, pulls as nat);
        lemma_sum_term(focus_waits(subrate), (pulls + 1) as nat, pulls);
    }
}

/// An unspent focus gives the target no later than on pull `FOCUS_SPAN`.
pub proof fn lemma_focus_span(subrate: nat, pulls: int)
    requires
        pulls > FOCUS_SPAN,
    ensures
        focus_at(subrate, pulls) == 0,
{
    let f = focus_term(subrate, pulls);
    assert forall|from: int| 0 <= from < pulls implies #[trigger] f(from) == 0 by {
        lemma_scaled_zero(unmet(subrate, from as nat));
        lemma_scaled_zero(rare_at(pulls - from));
    }
    lemma_sum_zero(f, pulls as nat);
}

/// Rare outcomes that lie more than the longest wait back add nothing.
proof fn lemma_unmet_from_late(subrate: nat, pulls: nat, sources: nat)
    requires
        sources == 0 || sources + RARE_SPAN <= pulls,
    ensures
        unmet_from(subrate, pulls, sources) == 0,
    decreases sources,
{
    if sources > 0 {
        lemma_unmet_from_late(subrate, pulls, (sources - 1) as nat);
        lemma_scaled_zero(unmet(subrate, (sources - 1) as nat));
        lemma_scaled_zero((UNIT - subrate) as nat);
    }
}

/// What is unmet grows with the pulls that are counted.
proof fn lemma_unmet_from_mono(subrate: nat, pulls: nat, fewer: nat, more: nat)
    requires
        fewer <= more <= pulls,
    ensures
        unmet_from(subrate, pulls, fewer) <= unmet_from(subrate, pulls, more),
    decreases more,
{
    if fewer < more {
        lemma_unmet_from_mono(subrate, pulls, fewer, (more - 1) as nat);
    }
}

/// The probabilities `rare_at` of the waits of up to `RARE_SPAN` pulls, by wait.
pub fn rare_table() -> (tab: Vec<u64>)
    ensures
        holds_rare(tab@),
{
    let mut tab: Vec<u64> = Vec::new();
    tab.push(0);
    let mut left: u64 = UNIT;
    let mut d: usize = 1;
    while d <= RARE_SPAN
        invariant
            1 <= d <= RARE_SPAN + 1,
            tab.len() == d,
            left == spared((d - 1) as nat),
            forall|k: int| 0 <= k < d ==> #[trigger] tab[k] == rare_at(k),
        decreases RARE_SPAN + 1 - d,
    {
        let r: u64 = pity_rate(d - 1);
        let next: u64 = times(left, UNIT - r);
        tab.push(left - next);
        left = next;
        d += 1;
    }
    tab
}

/// The probabilities `unmet` of the pulls up to the end of the focus window, by
/// pull.
pub fn unmet_table(subrate: u64, rare: &Vec<u64>) -> (tab: Vec<u64>)
    requires
        subrate <= UNIT,
        holds_rare(rare@),
    ensures
        holds_unmet(tab@, subrate as nat),
{
    let mut tab: Vec<u64> = Vec::new();
    tab.push(UNIT);
    let mut k: usize = 1;
    while k <= FOCUS_WINDOW
        invariant
            1 <= k <= FOCUS_WINDOW + 1,
            subrate <= UNIT,
            holds_rare(rare@),
            tab.len() == k,
            forall|j: int| 0 <= j < k ==> #[trigger] tab[j] == unmet(subrate as nat, j as nat),
        decreases FOCUS_WINDOW + 1 - k,
    {
        let first: usize = if k > RARE_SPAN {
            k - RARE_SPAN
        } else {
            0
        };
        let mut sum: u64 = 0;
        let mut from: usize = first;
        proof {
            lemma_unmet_from_late(subrate as nat, k as nat, first as nat);
        }
        while from < k
            invariant
                first <= from <= k <= FOCUS_WINDOW,
                k <= first + RARE_SPAN,
                subrate <= UNIT,
                holds_rare(rare@),
                tab.len() == k,
                forall|j: int| 0 <= j < k ==> #[trigger] tab[j] == unmet(subrate as nat, j as nat),
                sum == unmet_from(subrate as nat, k as nat, from as nat),
            decreases k - from,
        {
            proof {
                lemma_unmet_from_mono(subrate as nat, k as nat, (from + 1) as nat, k as nat);
                lemma_focus_total(subrate as nat, k as nat);
                lemma_waits_total((k - from) as nat);
            }
            let part: u64 = times(tab[from], rare[k - from]);
            sum = sum + times(part, UNIT - subrate);
            from += 1;
        }
        tab.push(sum);
        k += 1;
    }
    tab
}

/// The probabilities `focus_at` of the pulls up to `FOCUS_SPAN`, by pull.
pub fn focus_table(subrate: u64, unmet_tab: &Vec<u64>, rare: &Vec<u64>) -> (tab: Vec<u64>)
    requires
        subrate <= UNIT,
        holds_rare(rare@),
        holds_unmet(unmet_tab@, subrate as nat),
    ensures
        holds_focus(tab@, subrate as nat),
{
    let mut tab: Vec<u64> = Vec::new();
    tab.push(0);
    let mut n: usize = 1;
    while n <= FOCUS_SPAN
        invariant
            1 <= n <= FOCUS_SPAN + 1,
            subrate <= UNIT,
            holds_rare(rare@),
            holds_unmet(unmet_tab@, subrate as nat),
            tab.len() == n,
            forall|j: int| 0 <= j < n ==> #[trigger] tab[j] == focus_at(subrate as nat, j),
        decreases FOCUS_SPAN + 1 - n,
    {
        let first: usize = if n > RARE_SPAN {
            n - RARE_SPAN
        } else {
            0
        };
        let end: usize = if n <= FOCUS_WINDOW {
            n
        } else {
            FOCUS_WINDOW + 1
        };
        let ghost f = focus_term(subrate as nat, n as int);
        proof {
            assert forall|i: int| 0 <= i < first implies #[trigger] f(i) == 0 by {
                lemma_scaled_zero(unmet(subrate as nat, i as nat));
                lemma_scaled_zero(subrate as nat);
            }
            lemma_sum_zero(f, first as nat);
            assert forall|i: int| end <= i < n implies #[trigger] f(i) == 0 by {
                lemma_scaled_zero(rare_at(n - i));
            }
            lemma_sum_zero_tail(f, end as nat, n as nat);
            lemma_focus_total(subrate as nat, n as nat);
            lemma_sum_term(focus_waits(subrate as nat), (n + 1) as nat, n as int);
        }
        let mut sum: u64 = 0;
        let mut from: usize = first;
        while from < end
            invariant
                first <= from <= end <= n <= FOCUS_SPAN,
                end <= FOCUS_WINDOW + 1,
                n <= first + RARE_SPAN,
                subrate <= UNIT,
                holds_rare(rare@),
                holds_unmet(unmet_tab@, subrate as nat),
                f == focus_term(subrate as nat, n as int),
                sum_below(f, end as nat) <= UNIT,
                sum == sum_below(f, from as nat),
            decreases end - from,
        {
            proof {
                lemma_sum_mono(f, (from + 1) as nat, end as nat);
                lemma_waits_total((n - from) as nat);
            }
            let part: u64 = times(unmet_tab[from], rare[n - from]);
            if n <= FOCUS_WINDOW {
                sum = sum + times(part, subrate);
            } else {
                sum = sum + part;
            }
            from += 1;
        }
        tab.push(sum);
        n += 1;
    }
    tab
}

/// What rounding can cost the first target under an unspent focus, in units of
/// `1 / UNIT`.
pub const FOCUS_LOSS: u64 = 114_005;

/// All but a few units of the unmet mass on a pull go on to later pulls within the
/// span of the focus.
proof fn lemma_unmet_sends_nearly(subrate: nat, from: int)
    requires
        subrate <= UNIT,
        0 <= from <= FOCUS_WINDOW,
    ensures
        sum_below(
            outflow(unmet_cont(subrate), unmet_stop(subrate), from),
            (FOCUS_SPAN + 1) as nat,
        ) + 755 >= unmet(subrate, from as nat),
{
    let u = UNIT as nat;
    let m = (FOCUS_SPAN + 1) as nat;
    let x = unmet(subrate, from as nat);
    let w = delayed(waits(), from);
    let out = outflow(unmet_cont(subrate), unmet_stop(subrate), from);
    let short = |to: int| (out(to) + 1) as nat;
    let one = |to: int| 1nat;
    assert forall|to: int| 0 <= to < m implies #[trigger] shares(x, w)(to) <= short(to) by {
        let part = scaled(x, rare_at(to - from));
        assert(w(to) == rare_at(to - from));
        if to > from {
            lemma_scaled_split_loss(part, subrate);
        } else {
            lemma_scaled_zero(x);
        }
    }
    lemma_sum_le(shares(x, w), short, m);
    lemma_sum_add(out, one, short, m);
    lemma_sum_ones(one, m);
    lemma_shares_loss(x, w, m);
    lemma_sum_delayed(waits(), from as nat, m);
    let rest = (m - from) as nat;
    lemma_waits_sum(rest);
    lemma_spared_runs_out();
    lemma_focus_total(subrate, from as nat);
    let total = sum_below(w, m);
    assert(total + 255 >= u);
    assert(x * total + 255 * u >= x * u) by (nonlinear_arith)
        requires
            total + 255 >= u,
            x <= u,
    ;
    assert((x * total) / u + 256 >= x) by (nonlinear_arith)
        requires
            x * total + 255 * u >= x * u,
            u > 0,
    ;
}

/// A sum of ones is the number of its terms.
proof fn lemma_sum_ones(one: spec_fn(int) -> nat, k: nat)
    requires
        forall|i: int| 0 <= i < k ==> #[trigger] one(i) == 1,
    ensures
        sum_below(one, k) == k,
    decreases k,
{
    if k > 0 {
        lemma_sum_ones(one, (k - 1) as nat);
    }
}

/// An unspent focus brings the target within its span: the waits of up to
/// `FOCUS_SPAN` pulls have probability one together, but for what rounding costs.
pub proof fn lemma_focus_guarantee(subrate: nat)
    requires
        subrate <= UNIT,
    ensures
        sum_below(focus_waits(subrate), (FOCUS_SPAN + 1) as nat) + FOCUS_LOSS >= UNIT,
{
    let span = FOCUS_SPAN as nat;
    let m = (FOCUS_SPAN + 1) as nat;
    let a = unmet_by(subrate);
    let b = focus_waits(subrate);
    let cont = unmet_cont(subrate);
    let stop = unmet_stop(subrate);
    lemma_unmet_flows(subrate, span);
    lemma_flow_balance(a, b, cont, stop, span, span);
    let rest = held(a, cont, stop, span);
    let most = |k: int|
        if k <= FOCUS_WINDOW {
            755nat
        } else {
            0nat
        };
    assert forall|k: int| 0 <= k < m implies #[trigger] rest(k) <= most(k) by {
        if k <= FOCUS_WINDOW {
            lemma_unmet_sends_nearly(subrate, k);
        }
    }
    lemma_sum_le(rest, most, m);
    lemma_sum_zero_tail(most, (FOCUS_WINDOW + 1) as nat, m);
    lemma_sum_flat(most, 755, (FOCUS_WINDOW + 1) as nat);
    assert(151 * 755 == 114_005) by (nonlinear_arith);
}

/// A sum of equal terms is the term times their number.
proof fn lemma_sum_flat(f: spec_fn(int) -> nat, each: nat, k: nat)
    requires
        forall|i: int| 0 <= i < k ==> #[trigger] f(i) == each,
    ensures
        sum_below(f, k) == k * each,
    decreases k,
{
    if k > 0 {
        lemma_sum_flat(f, each, (k - 1) as nat);
        assert(k * each == (k - 1) * each + each) by (nonlinear_arith);
    } else {
        assert(0 * each == 0) by (nonlinear_arith);
    }
}

} // verus!
