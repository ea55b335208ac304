//! The floor `d`-th root of a natural number, and the laws it obeys.
use vstd::prelude::*;

use crate::power::{
    lemma_power_at_least_base, lemma_power_base_monotonic, lemma_power_exponent_monotonic,
    lemma_one_power, lemma_power_small, power,
};

verus! {

/// `r` is the floor `d`-th root of `n`: `r^d <= n < (r+1)^d`.
pub open spec fn is_floor_root(r: nat, n: nat, d: nat) -> bool {
    power(r, d) <= n && n < power(r + 1, d)
}

/// The largest `r <= k` with `r^d <= n` (zero when there is none).
pub open spec fn root_search(n: nat, d: nat, k: nat) -> nat
    decreases k,
{
    if k == 0 || power(k, d) <= n {
        k
    } else {
        root_search(n, d, (k - 1) as nat)
    }
}

/// The floor `d`-th root of `n`: the largest natural number whose `d`-th
/// power does not exceed `n`.
pub open spec fn floor_root(n: nat, d: nat) -> nat {
    root_search(n, d, n)
}

proof fn lemma_root_search(n: nat, d: nat, k: nat)
    requires
        d >= 1,
        n < power(k + 1, d),
    ensures
        is_floor_root(root_search(n, d, k), n, d),
    decreases k,
{
    if k == 0 {
        assert(power(0, d) == 0 * power(0, (d - 1) as nat));
    } else if power(k, d) > n {
        assert((k - 1) as nat + 1 == k);
        lemma_root_search(n, d, (k - 1) as nat);
    }
}

/// Two floor roots of the same number are equal.
pub proof fn lemma_floor_root_unique(a: nat, b: nat, n: nat, d: nat)
    requires
        is_floor_root(a, n, d),
        is_floor_root(b, n, d),
    ensures
        a == b,
{
    if a < b {
        lemma_power_base_monotonic(a + 1, b, d);
    } else if b < a {
        lemma_power_base_monotonic(b + 1, a, d);
    }
}

/// For every degree of at least one, `floor_root(n, d)^d <= n` and
/// `n < (floor_root(n, d) + 1)^d`: the root is neither too large nor too small.
pub proof fn lemma_floor_root_bounds(n: nat, d: nat)
    requires
        d >= 1,
    ensures
        is_floor_root(floor_root(n, d), n, d),
{
    lemma_power_at_least_base(n + 1, d);
    lemma_root_search(n, d, n);
}

/// `r` is the floor root exactly when it satisfies the two bounds.
pub proof fn lemma_floor_root_iff(r: nat, n: nat, d: nat)
    requires
        d >= 1,
    ensures
        is_floor_root(r, n, d) <==> r == floor_root(n, d),
{
    lemma_floor_root_bounds(n, d);
    if is_floor_root(r, n, d) {
        lemma_floor_root_unique(r, floor_root(n, d), n, d);
    }
}

/// The root of zero is zero, whatever the degree.
pub proof fn lemma_floor_root_of_zero(d: nat)
    requires
        d >= 1,
    ensures
        floor_root(0, d) == 0,
{
}

/// The first root of a number is the number itself.
pub proof fn lemma_floor_root_degree_one(n: nat)
    ensures
        floor_root(n, 1) == n,
{
    lemma_power_small(n);
    lemma_power_small(n + 1);
    lemma_floor_root_iff(n, n, 1);
}

/// A non-zero number below `2^bits` has root one for every degree of at
/// least `bits`.
pub proof fn lemma_floor_root_saturates(n: nat, d: nat, bits: nat)
    requires
        0 < n < power(2, bits),
        d >= bits,
        d >= 1,
    ensures
        floor_root(n, d) == 1,
{
    lemma_power_exponent_monotonic(2, bits, d);
    lemma_power_base_monotonic(0, 1, d);
    lemma_one_power(d);
    lemma_floor_root_iff(1, n, d);
}

/// For a fixed degree, a larger number never has a smaller root.
pub proof fn lemma_floor_root_monotonic(a: nat, b: nat, d: nat)
    requires
        a <= b,
        d >= 1,
    ensures
        floor_root(a, d) <= floor_root(b, d),
{
    lemma_floor_root_bounds(a, d);
    lemma_floor_root_bounds(b, d);
    let ra = floor_root(a, d);
    let rb = floor_root(b, d);
    if ra > rb {
        lemma_power_base_monotonic(rb + 1, ra, d);
    }
}

} // verus!
