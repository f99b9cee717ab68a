//! Fixed-point probabilities and their products.

use vstd::prelude::*;
use crate::sums::sum_below;

verus! {

/// The fixed-point value that stands for probability one: a probability `x / UNIT`
/// is held as the integer `x`.
pub const UNIT: u64 = 1_000_000_000_000_000_000;

/// The product of two fixed-point probabilities, rounded down to the grid.
pub open spec fn scaled(x: nat, y: nat) -> nat {
    (x * y) / (UNIT as nat)
}

/// A quotient by one, rounded down, lies less than one below.
pub proof fn lemma_floor(a: nat, q: nat)
    ensures
        q == a / (UNIT as nat) ==> q * UNIT <= a < q * UNIT + UNIT,
{
    let u = UNIT as nat;
    assert((a / u) * u <= a < (a / u) * u + u) by (nonlinear_arith)
        requires
            u > 0,
    ;
}

/// A product with a probability never exceeds the other factor.
pub proof fn lemma_scaled_le(x: nat, y: nat)
    requires
        y <= UNIT,
    ensures
        scaled(x, y) <= x,
{
    assert(x * y <= x * (UNIT as nat)) by (nonlinear_arith)
        requires
            y <= UNIT,
    ;
    assert((x * (UNIT as nat)) / (UNIT as nat) == x) by (nonlinear_arith);
    assert((x * y) / (UNIT as nat) <= (x * (UNIT as nat)) / (UNIT as nat)) by (nonlinear_arith)
        requires
            x * y <= x * (UNIT as nat),
    ;
}

/// A product with zero is zero.
pub proof fn lemma_scaled_zero(y: nat)
    ensures
        scaled(0, y) == 0,
        scaled(y, 0) == 0,
{
    assert(0 * y == 0) by (nonlinear_arith);
    assert(y * 0 == 0) by (nonlinear_arith);
}

/// A product with one is the other factor.
pub proof fn lemma_scaled_unit(x: nat)
    ensures
        scaled(x, UNIT as nat) == x,
        scaled(UNIT as nat, x) == x,
{
    assert((x * (UNIT as nat)) / (UNIT as nat) == x) by (nonlinear_arith);
    assert(((UNIT as nat) * x) / (UNIT as nat) == x) by (nonlinear_arith);
}

/// The two parts into which a probability `y` and its complement split `x` do not
/// exceed `x` together.
pub proof fn lemma_scaled_split(x: nat, y: nat)
    requires
        y <= UNIT,
    ensures
        scaled(x, y) + scaled(x, (UNIT - y) as nat) <= x,
{
    let u = UNIT as nat;
    let z = (UNIT - y) as nat;
    assert(x * y + x * z == x * u) by (nonlinear_arith)
        requires
            y + z == u,
    ;
    assert((x * y) / u + (x * z) / u <= (x * y + x * z) / u) by (nonlinear_arith)
        requires
            u > 0,
    ;
    assert((x * u) / u == x) by (nonlinear_arith)
        requires
            u > 0,
    ;
}

/// Multiplies two fixed-point probabilities, rounding down.
pub fn times(x: u64, y: u64) -> (r: u64)
    requires
        y <= UNIT,
    ensures
        r == scaled(x as nat, y as nat),
        r <= x,
{
    proof {
        lemma_scaled_le(x as nat, y as nat);
    }
    let wide: u128 = (x as u128) * (y as u128);
    (wide / (UNIT as u128)) as u64
}

/// The parts of `x` that the weights `w` take, by index.
pub open spec fn shares(x: nat, w: spec_fn(int) -> nat) -> spec_fn(int) -> nat {
    |i: int| scaled(x, w(i))
}

/// The two parts into which a probability `y` and its complement split `x` fall
/// short of `x` by one unit at most.
pub proof fn lemma_scaled_split_loss(x: nat, y: nat)
    requires
        y <= UNIT,
    ensures
        scaled(x, y) + scaled(x, (UNIT - y) as nat) + 1 >= x,
{
    let u = UNIT as nat;
    let z = (UNIT - y) as nat;
    assert(x * y + x * z == x * u) by (nonlinear_arith)
        requires
            y + z == u,
    ;
    assert((x * y) / u + (x * z) / u + 1 >= (x * y + x * z) / u) by (nonlinear_arith)
        requires
            u > 0,
    ;
    assert((x * u) / u == x) by (nonlinear_arith)
        requires
            u > 0,
    ;
}

/// A product grows with its first factor.
pub proof fn lemma_scaled_mono(x: nat, z: nat, y: nat)
    requires
        x <= z,
    ensures
        scaled(x, y) <= scaled(z, y),
{
    let u = UNIT as nat;
    assert(x * y <= z * y) by (nonlinear_arith)
        requires
            x <= z,
    ;
    assert((x * y) / u <= (z * y) / u) by (nonlinear_arith)
        requires
            x * y <= z * y,
            u > 0,
    ;
}

/// A product with a probability grows by no more than its first factor does.
pub proof fn lemma_scaled_more(x: nat, more: nat, y: nat)
    requires
        y <= UNIT,
    ensures
        scaled(x + more, y) <= scaled(x, y) + more,
{
    let u = UNIT as nat;
    assert((x + more) * y <= x * y + more * u) by (nonlinear_arith)
        requires
            y <= u,
    ;
    assert((x * y + more * u) / u == (x * y) / u + more) by (nonlinear_arith)
        requires
            u > 0,
    ;
    assert(((x + more) * y) / u <= (x * y + more * u) / u) by (nonlinear_arith)
        requires
            (x + more) * y <= x * y + more * u,
            u > 0,
    ;
}

/// Weights that sum to no more than one take no more than the whole.
pub proof fn lemma_shares(x: nat, w: spec_fn(int) -> nat, k: nat)
    requires
        sum_below(w, k) <= UNIT,
    ensures
        sum_below(shares(x, w), k) <= x,
{
    lemma_shares_bound(x, w, k);
    lemma_scaled_le(x, sum_below(w, k));
}

/// The parts that weights take are no more than what their sum takes.
proof fn lemma_shares_bound(x: nat, w: spec_fn(int) -> nat, k: nat)
    ensures
        sum_below(shares(x, w), k) <= scaled(x, sum_below(w, k)),
    decreases k,
{
    if k > 0 {
        lemma_shares_bound(x, w, (k - 1) as nat);
        let u = UNIT as nat;
        let a = sum_below(w, (k - 1) as nat);
        let b = w(k - 1);
        assert(x * (a + b) == x * a + x * b) by (nonlinear_arith);
        assert((x * a) / u + (x * b) / u <= (x * a + x * b) / u) by (nonlinear_arith)
            requires
                u > 0,
        ;
    } else {
        lemma_scaled_zero(x);
    }
}

/// The parts that weights take fall short of what their sum takes by one unit for
/// each weight at most.
pub proof fn lemma_shares_loss(x: nat, w: spec_fn(int) -> nat, k: nat)
    ensures
        sum_below(shares(x, w), k) + k >= scaled(x, sum_below(w, k)),
    decreases k,
{
    if k > 0 {
        lemma_shares_loss(x, w, (k - 1) as nat);
        let u = UNIT as nat;
        let a = sum_below(w, (k - 1) as nat);
        let b = w(k - 1);
        assert(x * (a + b) == x * a + x * b) by (nonlinear_arith);
        assert((x * a) / u + (x * b) / u + 1 >= (x * a + x * b) / u) by (nonlinear_arith)
            requires
                u > 0,
        ;
    } else {
        lemma_scaled_zero(x);
    }
}

/// The entries of a distribution as naturals, by index.
pub open spec fn entries(dist: Seq<u64>) -> spec_fn(int) -> nat {
    |i: int| dist[i] as nat
}

/// The sum of all entries of a distribution.
pub open spec fn total(dist: Seq<u64>) -> nat {
    sum_below(entries(dist), dist.len())
}

} // verus!
