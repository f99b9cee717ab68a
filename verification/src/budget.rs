//! How a budget of pulls is laid out over the banners.

use vstd::prelude::*;
use crate::sums::sum_below;

verus! {

/// Why a budget of pulls cannot be laid out over the banners.
#[derive(Debug, Clone, Copy, PartialEq, Eq, Structural)]
pub enum BudgetError {
    /// There is no banner.
    NoBanners,
    /// Some banner's pulls, with its bonus, do not cover the one pull that every
    /// other banner must get.
    Underflow,
    /// The length of the convolution, or the number of its entries that count, does
    /// not fit the machine word.
    Overflow,
}

/// How a budget of pulls is laid out over the banners.
pub struct Plan {
    /// For each banner, the most pulls that it can get.
    pub max_pulls: Vec<usize>,
    /// The length that holds the convolution of all distributions in full.
    pub conv_size: usize,
    /// The number of leading entries of the convolution that lie within the budget.
    pub window: usize,
}

/// The most pulls that one of `banners` banners can get out of `pulls` shared pulls
/// and its own `bonus`, when each other banner gets one pull at least.
pub open spec fn allowance(pulls: nat, bonus: nat, banners: nat) -> int {
    pulls + bonus - (banners - 1)
}

/// The entries of `v` as naturals, by index.
pub open spec fn counts(v: Seq<usize>) -> spec_fn(int) -> nat {
    |i: int| v[i] as nat
}

/// The allowances by banner, where none is negative.
pub open spec fn allowances(pulls: nat, bonus: Seq<usize>) -> spec_fn(int) -> nat {
    |i: int| allowance(pulls, bonus[i] as nat, bonus.len()) as nat
}

/// Whether some banner's allowance is negative.
pub open spec fn underfunded(pulls: nat, bonus: Seq<usize>) -> bool {
    exists|i: int|
        0 <= i < bonus.len() && allowance(pulls, #[trigger] bonus[i] as nat, bonus.len()) < 0
}

/// The sum of all allowances.
pub open spec fn conv_size(pulls: nat, bonus: Seq<usize>) -> nat {
    sum_below(allowances(pulls, bonus), bonus.len())
}

/// The shared pulls and all bonus pulls, less one pull for each banner but one.
pub open spec fn window(pulls: nat, bonus: Seq<usize>) -> int {
    pulls + sum_below(counts(bonus), bonus.len()) - (bonus.len() - 1)
}

/// The allowance of one banner; `None` where it is negative or does not fit the
/// machine word.
pub fn max_pulls(pulls: usize, bonus_pulls: usize, banners: usize) -> (r: Option<usize>)
    requires
        banners >= 1,
    ensures
        match r {
            Some(n) => n == allowance(pulls as nat, bonus_pulls as nat, banners as nat),
            None => {
                let a = allowance(pulls as nat, bonus_pulls as nat, banners as nat);
                a < 0 || a > usize::MAX
            },
        },
{
    let others: usize = banners - 1;
    if bonus_pulls >= others {
        pulls.checked_add(bonus_pulls - others)
    } else {
        pulls.checked_sub(others - bonus_pulls)
    }
}

/// Lays `pulls` shared pulls out over banners with the given bonus pulls.
pub fn plan(bonus_pulls: &Vec<usize>, pulls: usize) -> (r: Result<Plan, BudgetError>)
    ensures
        match r {
            Ok(p) => {
                &&& bonus_pulls.len() >= 1
                &&& !underfunded(pulls as nat, bonus_pulls@)
                &&& p.max_pulls.len() == bonus_pulls.len()
                &&& forall|i: int|
                    0 <= i < bonus_pulls.len() ==> #[trigger] p.max_pulls[i] == allowance(
                        pulls as nat,
                        bonus_pulls[i] as nat,
                        bonus_pulls.len() as nat,
                    )
                &&& p.conv_size == sum_below(counts(p.max_pulls@), p.max_pulls.len() as nat)
                &&& p.conv_size == conv_size(pulls as nat, bonus_pulls@)
                &&& p.window == window(pulls as nat, bonus_pulls@)
            },
            Err(BudgetError::NoBanners) => bonus_pulls.len() == 0,
            Err(BudgetError::Underflow) => bonus_pulls.len() >= 1 && underfunded(
                pulls as nat,
                bonus_pulls@,
            ),
            Err(BudgetError::Overflow) => {
                &&& bonus_pulls.len() >= 1
                &&& !underfunded(pulls as nat, bonus_pulls@)
                &&& (conv_size(pulls as nat, bonus_pulls@) > usize::MAX || window(
                    pulls as nat,
                    bonus_pulls@,
                ) > usize::MAX)
            },
        },
{
    let banners: usize = bonus_pulls.len();
    if banners == 0 {
        return Err(BudgetError::NoBanners);
    }
    let ghost all = allowances(pulls as nat, bonus_pulls@);
    let ghost extra = counts(bonus_pulls@);
    let mut max: Vec<usize> = Vec::new();
    let mut fits: bool = true;
    let mut conv: usize = 0;
    let mut win: usize = 0;
    let mut i: usize = 0;
    while i < banners
        invariant
            banners == bonus_pulls.len(),
            banners >= 1,
            i <= banners,
            all == allowances(pulls as nat, bonus_pulls@),
            extra == counts(bonus_pulls@),
            forall|j: int|
                0 <= j < i ==> allowance(
                    pulls as nat,
                    #[trigger] bonus_pulls[j] as nat,
                    banners as nat,
                ) >= 0,
            fits ==> max.len() == i,
            fits ==> forall|j: int|
                0 <= j < i ==> #[trigger] max[j] == allowance(
                    pulls as nat,
                    bonus_pulls[j] as nat,
                    banners as nat,
                ),
            fits ==> conv == sum_below(all, i as nat),
            fits ==> conv == sum_below(counts(max@), i as nat),
            fits && i >= 1 ==> win == pulls + sum_below(extra, i as nat) - (banners - 1),
            !fits ==> sum_below(all, i as nat) > usize::MAX || (i >= 1 && pulls + sum_below(
                extra,
                i as nat,
            ) - (banners - 1) > usize::MAX),
        decreases banners - i,
    {
        let bonus: usize = bonus_pulls[i];
        let others: usize = banners - 1;
        let ghost a = allowance(pulls as nat, bonus as nat, banners as nat);
        if bonus < others && pulls < others - bonus {
            return Err(BudgetError::Underflow);
        }
        assert(all(i as int) == a);
        assert(extra(i as int) == bonus);
        if fits {
            let ghost before = max@;
            match max_pulls(pulls, bonus, banners) {
                Some(m) => {
                    match conv.checked_add(m) {
                        Some(c) => {
                            conv = c;
                            max.push(m);
                            proof {
                                lemma_counts_push(before, m);
                            }
                        },
                        None => {
                            fits = false;
                        },
                    }
                    if i == 0 {
                        win = m;
                        assert(sum_below(extra, 0) == 0);
                    } else {
                        match win.checked_add(bonus) {
                            Some(w) => {
                                win = w;
                            },
                            None => {
                                fits = false;
                            },
                        }
                    }
                },
                None => {
                    fits = false;
                },
            }
        }
        i += 1;
    }
    proof {
        if !fits {
            assert(conv_size(pulls as nat, bonus_pulls@) > usize::MAX || window(
                pulls as nat,
                bonus_pulls@,
            ) > usize::MAX);
        }
    }
    if fits {
        Ok(Plan { max_pulls: max, conv_size: conv, window: win })
    } else {
        Err(BudgetError::Overflow)
    }
}

/// The allowances of the first `k` banners are their bonus pulls and, for each, the
/// shared pulls less the one pull of each other banner.
proof fn lemma_allowances_sum(pulls: nat, bonus: Seq<usize>, k: nat)
    requires
        !underfunded(pulls, bonus),
        k <= bonus.len(),
    ensures
        sum_below(allowances(pulls, bonus), k) == k * (pulls - (bonus.len() - 1)) + sum_below(
            counts(bonus),
            k,
        ),
    decreases k,
{
    if k > 0 {
        lemma_allowances_sum(pulls, bonus, (k - 1) as nat);
        let each = pulls - (bonus.len() - 1);
        assert(allowance(pulls, bonus[k - 1] as nat, bonus.len()) >= 0);
        assert(k * each == (k - 1) * each + each) by (nonlinear_arith);
    } else {
        assert(0 * (pulls - (bonus.len() - 1)) == 0) by (nonlinear_arith);
    }
}

/// The convolution is longer than its part that counts by the pulls that may not be
/// spent on one banner alone: for each banner but one, the shared pulls less the one
/// pull of each other banner.
pub proof fn lemma_sizes_differ(pulls: nat, bonus: Seq<usize>)
    requires
        bonus.len() >= 1,
        !underfunded(pulls, bonus),
    ensures
        conv_size(pulls, bonus) == window(pulls, bonus) + (bonus.len() - 1) * (pulls - (bonus.len()
            - 1)),
        pulls >= bonus.len() - 1 ==> 0 <= window(pulls, bonus) <= conv_size(pulls, bonus),
{
    let n = bonus.len() as int;
    let each = pulls - (n - 1);
    lemma_allowances_sum(pulls, bonus, bonus.len());
    assert(n * each == each + (n - 1) * each) by (nonlinear_arith);
    if each >= 0 {
        assert((n - 1) * each >= 0) by (nonlinear_arith)
            requires
                n >= 1,
                each >= 0,
        ;
    }
}

/// One banner alone can get every pull, and the whole convolution counts.
pub proof fn lemma_single_banner(pulls: nat, bonus: usize)
    ensures
        allowance(pulls, bonus as nat, 1) == pulls + bonus,
        conv_size(pulls, seq![bonus]) == pulls + bonus,
        window(pulls, seq![bonus]) == pulls + bonus,
{
    let v = seq![bonus];
    let a = allowances(pulls, v);
    let b = counts(v);
    assert(sum_below(a, 0) == 0);
    assert(sum_below(a, 1) == sum_below(a, 0) + a(0));
    assert(sum_below(b, 0) == 0);
    assert(sum_below(b, 1) == sum_below(b, 0) + b(0));
}

/// An entry more adds itself to the sum.
proof fn lemma_counts_push(v: Seq<usize>, x: usize)
    ensures
        sum_below(counts(v.push(x)), v.len() + 1) == sum_below(counts(v), v.len()) + x,
{
    lemma_counts_prefix(v, x, v.len());
}

/// An entry more leaves the sums before it as they are.
proof fn lemma_counts_prefix(v: Seq<usize>, x: usize, k: nat)
    requires
        k <= v.len(),
    ensures
        sum_below(counts(v.push(x)), k) == sum_below(counts(v), k),
    decreases k,
{
    if k > 0 {
        lemma_counts_prefix(v, x, (k - 1) as nat);
    }
}

} // verus!
