//! Finite sums of naturals, and how to regroup them.

use vstd::prelude::*;

verus! {

/// The sum `f(0) + f(1) + ... + f(k - 1)`.
pub open spec fn sum_below(f: spec_fn(int) -> nat, k: nat) -> nat
    decreases k,
{
    if k == 0 {
        0
    } else {
        sum_below(f, (k - 1) as nat) + f(k - 1)
    }
}

/// Sums of terms that agree below `k` agree.
pub proof fn lemma_sum_eq(f: spec_fn(int) -> nat, g: spec_fn(int) -> nat, k: nat)
    requires
        forall|i: int| 0 <= i < k ==> #[trigger] f(i) == g(i),
    ensures
        sum_below(f, k) == sum_below(g, k),
    decreases k,
{
    if k > 0 {
        lemma_sum_eq(f, g, (k - 1) as nat);
    }
}

/// A sum of terms that are each bounded by the terms of another sum is bounded by it.
pub proof fn lemma_sum_le(f: spec_fn(int) -> nat, g: spec_fn(int) -> nat, k: nat)
    requires
        forall|i: int| 0 <= i < k ==> #[trigger] f(i) <= g(i),
    ensures
        sum_below(f, k) <= sum_below(g, k),
    decreases k,
{
    if k > 0 {
        lemma_sum_le(f, g, (k - 1) as nat);
    }
}

/// The sum of termwise sums is the sum of the two sums.
pub proof fn lemma_sum_add(
    f: spec_fn(int) -> nat,
    g: spec_fn(int) -> nat,
    h: spec_fn(int) -> nat,
    k: nat,
)
    requires
        forall|i: int| 0 <= i < k ==> #[trigger] h(i) == f(i) + g(i),
    ensures
        sum_below(h, k) == sum_below(f, k) + sum_below(g, k),
    decreases k,
{
    if k > 0 {
        lemma_sum_add(f, g, h, (k - 1) as nat);
    }
}

/// A longer sum of naturals is no smaller.
pub proof fn lemma_sum_mono(f: spec_fn(int) -> nat, j: nat, k: nat)
    requires
        j <= k,
    ensures
        sum_below(f, j) <= sum_below(f, k),
    decreases k,
{
    if j < k {
        lemma_sum_mono(f, j, (k - 1) as nat);
    }
}

/// A sum of zeros is zero.
pub proof fn lemma_sum_zero(f: spec_fn(int) -> nat, k: nat)
    requires
        forall|i: int| 0 <= i < k ==> #[trigger] f(i) == 0,
    ensures
        sum_below(f, k) == 0,
    decreases k,
{
    if k > 0 {
        lemma_sum_zero(f, (k - 1) as nat);
    }
}

/// A sum whose only term that may differ from zero stands at `at` equals that term.
pub proof fn lemma_sum_single(f: spec_fn(int) -> nat, k: nat, at: int)
    requires
        0 <= at < k,
        forall|i: int| 0 <= i < k && i != at ==> #[trigger] f(i) == 0,
    ensures
        sum_below(f, k) == f(at),
    decreases k,
{
    if k - 1 == at {
        lemma_sum_zero(f, (k - 1) as nat);
    } else {
        lemma_sum_single(f, (k - 1) as nat, at);
    }
}

/// Each term of a sum of naturals is bounded by the sum.
pub proof fn lemma_sum_term(f: spec_fn(int) -> nat, k: nat, at: int)
    requires
        0 <= at < k,
    ensures
        f(at) <= sum_below(f, k),
    decreases k,
{
    if k - 1 != at {
        lemma_sum_term(f, (k - 1) as nat, at);
    }
}

/// A sum does not change over a stretch of zeros at its end.
pub proof fn lemma_sum_zero_tail(f: spec_fn(int) -> nat, j: nat, k: nat)
    requires
        j <= k,
        forall|i: int| j <= i < k ==> #[trigger] f(i) == 0,
    ensures
        sum_below(f, k) == sum_below(f, j),
    decreases k,
{
    if j < k {
        lemma_sum_zero_tail(f, j, (k - 1) as nat);
    }
}

/// The function `f` moved to the right by `by`.
pub open spec fn delayed(f: spec_fn(int) -> nat, by: int) -> spec_fn(int) -> nat {
    |i: int| f(i - by)
}

/// The sum of a function moved to the right by `by`, where the function is zero
/// below zero, is the sum of the function over `by` terms fewer.
pub proof fn lemma_sum_delayed(f: spec_fn(int) -> nat, by: nat, k: nat)
    requires
        forall|i: int| i < 0 ==> #[trigger] f(i) == 0,
    ensures
        sum_below(delayed(f, by as int), k) == sum_below(f, if k >= by {
            (k - by) as nat
        } else {
            0
        }),
    decreases k,
{
    if k > 0 {
        lemma_sum_delayed(f, by, (k - 1) as nat);
        assert(delayed(f, by as int)(k - 1) == f(k - 1 - by));
    }
}

/// The sum of a function moved to the right by one is its value at minus one and
/// its sum over one term fewer.
pub proof fn lemma_sum_shift(f: spec_fn(int) -> nat, k: nat)
    ensures
        sum_below(delayed(f, 1), k + 1) == f(-1) + sum_below(f, k),
    decreases k,
{
    let g = delayed(f, 1);
    if k == 0 {
        assert(sum_below(g, 0) == 0);
        assert(sum_below(g, 1) == sum_below(g, 0) + g(0));
    } else {
        lemma_sum_shift(f, (k - 1) as nat);
        assert(g(k as int) == f(k - 1));
    }
}

/// A function of two arguments with its first argument fixed.
pub open spec fn fix_first(g: spec_fn(int, int) -> nat, i: int) -> spec_fn(int) -> nat {
    |j: int| g(i, j)
}

/// A function of two arguments with its second argument fixed.
pub open spec fn fix_second(g: spec_fn(int, int) -> nat, j: int) -> spec_fn(int) -> nat {
    |i: int| g(i, j)
}

/// By first argument, the sum over the second argument below `n`.
pub open spec fn sums_over_second(g: spec_fn(int, int) -> nat, n: nat) -> spec_fn(int) -> nat {
    |i: int| sum_below(fix_first(g, i), n)
}

/// By second argument, the sum over the first argument below `m`.
pub open spec fn sums_over_first(g: spec_fn(int, int) -> nat, m: nat) -> spec_fn(int) -> nat {
    |j: int| sum_below(fix_second(g, j), m)
}

/// A double sum may be taken in either order.
pub proof fn lemma_sum_exchange(g: spec_fn(int, int) -> nat, m: nat, n: nat)
    ensures
        sum_below(sums_over_second(g, n), m) == sum_below(sums_over_first(g, m), n),
    decreases m,
{
    if m == 0 {
        lemma_sum_zero(sums_over_first(g, 0), n);
    } else {
        let before = (m - 1) as nat;
        lemma_sum_exchange(g, before, n);
        let last = fix_first(g, m - 1);
        assert forall|j: int| 0 <= j < n implies #[trigger] sums_over_first(g, m)(j)
            == sums_over_first(g, before)(j) + last(j) by {
            assert(fix_second(g, j)(m - 1) == g(m - 1, j));
        }
        lemma_sum_add(sums_over_first(g, before), last, sums_over_first(g, m), n);
    }
}

/// The first `k` values of `f` in the opposite order.
pub open spec fn reversed(f: spec_fn(int) -> nat, k: int) -> spec_fn(int) -> nat {
    |i: int| f(k - 1 - i)
}

/// A sum does not depend on the order of its terms.
pub proof fn lemma_sum_reversed(f: spec_fn(int) -> nat, k: nat)
    ensures
        sum_below(reversed(f, k as int), k) == sum_below(f, k),
    decreases k,
{
    if k > 0 {
        let before = (k - 1) as nat;
        lemma_sum_reversed(f, before);
        let r = reversed(f, k as int);
        let tail = delayed(r, -1);
        lemma_sum_shift(tail, before);
        lemma_sum_eq(delayed(tail, 1), r, k);
        lemma_sum_eq(tail, reversed(f, before as int), before);
    }
}

/// Sums keep a proportion that holds between their terms.
pub proof fn lemma_sum_scaled_le(
    f: spec_fn(int) -> nat,
    g: spec_fn(int) -> nat,
    a: nat,
    b: nat,
    k: nat,
)
    requires
        forall|i: int| 0 <= i < k ==> #[trigger] f(i) * a <= g(i) * b,
    ensures
        sum_below(f, k) * a <= sum_below(g, k) * b,
    decreases k,
{
    if k > 0 {
        lemma_sum_scaled_le(f, g, a, b, (k - 1) as nat);
        let x = sum_below(f, (k - 1) as nat);
        let y = sum_below(g, (k - 1) as nat);
        assert(f(k - 1) * a <= g(k - 1) * b);
        assert((x + f(k - 1)) * a == x * a + f(k - 1) * a) by (nonlinear_arith);
        assert((y + g(k - 1)) * b == y * b + g(k - 1) * b) by (nonlinear_arith);
    } else {
        assert(0 * a == 0) by (nonlinear_arith);
        assert(0 * b == 0) by (nonlinear_arith);
    }
}

} // verus!
