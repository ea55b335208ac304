//! Natural-number exponentiation and the facts about it that the root
//! computation relies on.
use vstd::prelude::*;

verus! {

/// `b` raised to the power `e`.
pub open spec fn power(b: nat, e: nat) -> nat
    decreases e,
{
    if e == 0 {
        1
    } else {
        b * power(b, (e - 1) as nat)
    }
}

/// The zeroth power is one and the first power is the base.
pub proof fn lemma_power_small(b: nat)
    ensures
        power(b, 0) == 1,
        power(b, 1) == b,
{
    reveal_with_fuel(power, 2);
}

/// Every power of one is one.
pub proof fn lemma_one_power(e: nat)
    ensures
        power(1, e) == 1,
    decreases e,
{
    if e > 0 {
        lemma_one_power((e - 1) as nat);
    }
}

/// A positive base gives a positive power.
pub proof fn lemma_power_positive(b: nat, e: nat)
    requires
        b >= 1,
    ensures
        power(b, e) >= 1,
    decreases e,
{
    if e > 0 {
        lemma_power_positive(b, (e - 1) as nat);
        let p = power(b, (e - 1) as nat);
        assert(b * p >= 1) by (nonlinear_arith)
            requires
                b >= 1,
                p >= 1,
        ;
    }
}

/// Raising to a fixed power keeps the order of the bases.
pub proof fn lemma_power_base_monotonic(a: nat, b: nat, e: nat)
    requires
        a <= b,
    ensures
        power(a, e) <= power(b, e),
    decreases e,
{
    if e > 0 {
        lemma_power_base_monotonic(a, b, (e - 1) as nat);
        let pa = power(a, (e - 1) as nat);
        let pb = power(b, (e - 1) as nat);
        assert(a * pa <= b * pb) by (nonlinear_arith)
            requires
                a <= b,
                pa <= pb,
        ;
    }
}

/// Raising to a positive power keeps the strict order of the bases.
pub proof fn lemma_power_base_strict(a: nat, b: nat, e: nat)
    requires
        a < b,
        e >= 1,
    ensures
        power(a, e) < power(b, e),
    decreases e,
{
    let pa = power(a, (e - 1) as nat);
    let pb = power(b, (e - 1) as nat);
    lemma_power_base_monotonic(a, b, (e - 1) as nat);
    lemma_power_positive(b, (e - 1) as nat);
    assert(a * pa < b * pb) by (nonlinear_arith)
        requires
            a < b,
            pa <= pb,
            pb >= 1,
    ;
}

/// A positive power of a natural number is at least the number itself.
pub proof fn lemma_power_at_least_base(b: nat, e: nat)
    requires
        e >= 1,
    ensures
        power(b, e) >= b,
{
    if b > 0 {
        lemma_power_positive(b, (e - 1) as nat);
        let p = power(b, (e - 1) as nat);
        assert(b * p >= b) by (nonlinear_arith)
            requires
                p >= 1,
        ;
    }
}

/// Exponents add when powers of one base are multiplied.
pub proof fn lemma_power_adds(b: nat, e1: nat, e2: nat)
    ensures
        power(b, e1 + e2) == power(b, e1) * power(b, e2),
    decreases e1,
{
    lemma_power_small(b);
    if e1 > 0 {
        lemma_power_adds(b, (e1 - 1) as nat, e2);
        let s = (e1 + e2 - 1) as nat;
        assert((e1 - 1) as nat + e2 == s);
        assert(power(b, e1 + e2) == b * power(b, s));
        assert(power(b, e1) == b * power(b, (e1 - 1) as nat));
        let p1 = power(b, (e1 - 1) as nat);
        let p2 = power(b, e2);
        assert(power(b, s) == p1 * p2);
        assert(b * (p1 * p2) == (b * p1) * p2) by (nonlinear_arith);
        assert(power(b, e1 + e2) == power(b, e1) * power(b, e2)) by (nonlinear_arith)
            requires
                power(b, e1 + e2) == b * (p1 * p2),
                power(b, e1) == b * p1,
                power(b, e2) == p2,
        ;
    } else {
        assert(power(b, e1 + e2) == power(b, e2));
    }
}

/// A power of a power multiplies the exponents.
pub proof fn lemma_power_of_power(b: nat, e1: nat, e2: nat)
    ensures
        power(power(b, e1), e2) == power(b, e1 * e2),
    decreases e2,
{
    lemma_power_small(power(b, e1));
    if e2 == 0 {
        assert(e1 * e2 == 0);
        lemma_power_small(b);
    } else {
        let f = (e2 - 1) as nat;
        lemma_power_of_power(b, e1, f);
        assert(e1 * e2 == e1 + e1 * f) by (nonlinear_arith)
            requires
                f == e2 - 1,
        ;
        lemma_power_adds(b, e1, e1 * f);
        assert(power(power(b, e1), e2) == power(b, e1) * power(power(b, e1), f));
    }
}

/// Powers of a base of at least one grow with the exponent.
pub proof fn lemma_power_exponent_monotonic(b: nat, e1: nat, e2: nat)
    requires
        b >= 1,
        e1 <= e2,
    ensures
        power(b, e1) <= power(b, e2),
{
    lemma_power_adds(b, e1, (e2 - e1) as nat);
    lemma_power_positive(b, (e2 - e1) as nat);
    let p1 = power(b, e1);
    let p2 = power(b, (e2 - e1) as nat);
    assert(p1 <= p1 * p2) by (nonlinear_arith)
        requires
            p2 >= 1,
    ;
}

/// The weighted mean inequality behind Newton's method for `d`-th roots:
/// `x^(d-1) * (d*r - (d-1)*x) <= r^d` for all natural `x` and `r`.
pub proof fn lemma_newton_mean_inequality(x: nat, r: nat, d: nat)
    requires
        d >= 1,
    ensures
        (power(x, (d - 1) as nat) as int) * (d * r - (d - 1) * x) <= power(r, d) as int,
    decreases d,
{
    lemma_power_small(x);
    lemma_power_small(r);
    if d > 1 {
        let e = (d - 1) as nat;
        lemma_newton_mean_inequality(x, r, e);
        let pn = power(x, (e - 1) as nat);
        let rn = power(r, e);
        assert(power(x, e) == x * pn);
        assert(power(r, d) == r * rn);
        let p = pn as int;
        let ri = r as int;
        let xi = x as int;
        let ei = e as int;
        let c = ei * ri - (ei - 1) * xi;
        let y = (ei + 1) * ri - ei * xi;
        // The inductive hypothesis, scaled by r.
        lemma_mul_le(ri, p * c, rn as int);
        // x * y <= r * c, the gap being e * (r - x)^2.
        assert(ri * c - xi * y == ei * ((ri - xi) * (ri - xi))) by (nonlinear_arith)
            requires
                c == ei * ri - (ei - 1) * xi,
                y == (ei + 1) * ri - ei * xi,
        ;
        assert((ri - xi) * (ri - xi) >= 0) by (nonlinear_arith);
        lemma_mul_le(ei, 0, (ri - xi) * (ri - xi));
        lemma_mul_le(p, xi * y, ri * c);
        lemma_mul_regroup(xi, p, y);
        lemma_mul_regroup(ri, p, c);
        assert(power(x, e) as int == xi * p);
        assert(power(r, d) as int == ri * (rn as int));
        assert((xi * p) * y <= ri * (rn as int));
        assert(d * r - (d - 1) * x == y);
    } else {
        assert(d * r - (d - 1) * x == r) by (nonlinear_arith)
            requires
                d == 1,
        ;
    }
}

/// Multiplying by a non-negative factor keeps an order.
proof fn lemma_mul_le(f: int, a: int, b: int)
    requires
        f >= 0,
        a <= b,
    ensures
        f * a <= f * b,
{
    assert(f * a <= f * b) by (nonlinear_arith)
        requires
            f >= 0,
            a <= b,
    ;
}

/// `(a * b) * c == b * (a * c) == a * (b * c)`.
proof fn lemma_mul_regroup(a: int, b: int, c: int)
    ensures
        (a * b) * c == b * (a * c),
        a * (b * c) == b * (a * c),
{
    assert((a * b) * c == b * (a * c)) by (nonlinear_arith);
    assert(a * (b * c) == b * (a * c)) by (nonlinear_arith);
}

/// `2^64`, written out.
pub proof fn lemma_two_to_64()
    ensures
        power(2, 64) == 0x1_0000_0000_0000_0000,
{
    assert(power(2, 8) == 256) by {
        reveal_with_fuel(power, 9);
    }
    assert(power(256, 8) == 0x1_0000_0000_0000_0000) by {
        reveal_with_fuel(power, 9);
    }
    lemma_power_of_power(2, 8, 8);
}

} // verus!
