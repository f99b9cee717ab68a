//! Mass that flows forward from source to source is never more than at the start.

use vstd::prelude::*;
use crate::sums::{fix_second, lemma_sum_add, lemma_sum_term, lemma_sum_zero, sum_below};

verus! {

/// All that leaves the source `from`, by where it goes: what moves on, and what
/// comes to rest.
pub open spec fn outflow(
    cont: spec_fn(int, int) -> nat,
    stop: spec_fn(int, int) -> nat,
    from: int,
) -> spec_fn(int) -> nat {
    |to: int| cont(from, to) + stop(from, to)
}

/// What the source `k` still holds when all that goes to places up to `horizon` has
/// left it.
pub open spec fn held(
    a: spec_fn(int) -> nat,
    cont: spec_fn(int, int) -> nat,
    stop: spec_fn(int, int) -> nat,
    horizon: nat,
) -> spec_fn(int) -> nat {
    |k: int| (a(k) - sum_below(outflow(cont, stop, k), horizon + 1)) as nat
}

/// Whether mass flows forward only and no source sends more than it has: the mass
/// `a(k)` at `k` is what moved on to `k` from the sources before it, the mass `b(n)`
/// at rest at `n` is what came to rest there from the sources before it, and all
/// that leaves a source is no more than its mass. This up to `horizon`.
pub open spec fn flows(
    a: spec_fn(int) -> nat,
    b: spec_fn(int) -> nat,
    cont: spec_fn(int, int) -> nat,
    stop: spec_fn(int, int) -> nat,
    horizon: nat,
) -> bool {
    &&& b(0) == 0
    &&& forall|k: int|
        1 <= k <= horizon ==> #[trigger] a(k) == sum_below(fix_second(cont, k), k as nat)
    &&& forall|n: int|
        1 <= n <= horizon ==> #[trigger] b(n) == sum_below(fix_second(stop, n), n as nat)
    &&& forall|i: int, n: int| n <= i ==> #[trigger] cont(i, n) == 0
    &&& forall|i: int, n: int| n <= i ==> #[trigger] stop(i, n) == 0
    &&& forall|i: int, m: nat|
        0 <= i <= horizon && m <= horizon + 1 ==> #[trigger] sum_below(
            outflow(cont, stop, i),
            m,
        ) <= a(i)
}

/// The mass at rest and the mass still held are the mass at the start, at every
/// place up to the horizon.
pub proof fn lemma_flow_balance(
    a: spec_fn(int) -> nat,
    b: spec_fn(int) -> nat,
    cont: spec_fn(int, int) -> nat,
    stop: spec_fn(int, int) -> nat,
    horizon: nat,
    upto: nat,
)
    requires
        flows(a, b, cont, stop, horizon),
        upto <= horizon,
    ensures
        sum_below(b, upto + 1) + sum_below(held(a, cont, stop, upto), upto + 1) == a(0),
    decreases upto,
{
    if upto == 0 {
        let h = held(a, cont, stop, 0);
        let out = outflow(cont, stop, 0);
        assert(sum_below(b, 0) == 0);
        assert(sum_below(b, 1) == sum_below(b, 0) + b(0));
        assert(sum_below(h, 0) == 0);
        assert(sum_below(h, 1) == sum_below(h, 0) + h(0));
        assert(sum_below(out, 0) == 0);
        assert(sum_below(out, 1) == sum_below(out, 0) + out(0));
    } else {
        let before = (upto - 1) as nat;
        lemma_flow_balance(a, b, cont, stop, horizon, before);
        let h0 = held(a, cont, stop, before);
        let h1 = held(a, cont, stop, upto);
        let c = fix_second(cont, upto as int);
        let s = fix_second(stop, upto as int);
        let cs = |k: int| c(k) + s(k);
        lemma_sum_add(c, s, cs, upto);
        assert forall|k: int| 0 <= k < upto implies #[trigger] h0(k) == h1(k) + cs(k) by {
            let out = outflow(cont, stop, k);
            assert(sum_below(out, upto + 1) == sum_below(out, upto) + out(upto as int));
            assert(sum_below(out, upto + 1) <= a(k));
        }
        lemma_sum_add(h1, cs, h0, upto);
        let last = outflow(cont, stop, upto as int);
        lemma_sum_zero(last, upto + 1);
        assert(h1(upto as int) == a(upto as int));
        assert(sum_below(h1, upto + 1) == sum_below(h1, upto) + h1(upto as int));
        assert(sum_below(b, upto + 1) == sum_below(b, upto) + b(upto as int));
    }
}

/// Where mass flows forward only and no source sends more than it has, the mass at
/// a place and all the mass that has come to rest up to there are together no more
/// than the mass at the start.
pub proof fn lemma_flow(
    a: spec_fn(int) -> nat,
    b: spec_fn(int) -> nat,
    cont: spec_fn(int, int) -> nat,
    stop: spec_fn(int, int) -> nat,
    horizon: nat,
)
    requires
        flows(a, b, cont, stop, horizon),
    ensures
        a(horizon as int) + sum_below(b, horizon + 1) <= a(0),
{
    lemma_flow_balance(a, b, cont, stop, horizon, horizon);
    let h = held(a, cont, stop, horizon);
    lemma_sum_term(h, horizon + 1, horizon as int);
    lemma_sum_zero(outflow(cont, stop, horizon as int), horizon + 1);
}

} // verus!
