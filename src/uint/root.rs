//! The floor `degree`-th root of a fixed-width integer, by Newton's method
//! from a seed above the root.
use vstd::arithmetic::div_mod::{lemma_basic_div, lemma_fundamental_div_mod, lemma_mod_bound};
use vstd::prelude::*;

use super::{two_to, Uint};
use crate::floor_root::{
    floor_root, is_floor_root, lemma_floor_root_bounds, lemma_floor_root_degree_one,
    lemma_floor_root_of_zero, lemma_floor_root_saturates,
};
use crate::power::{
    lemma_newton_mean_inequality, lemma_one_power, lemma_power_base_monotonic, lemma_power_exponent_monotonic,
    lemma_power_of_power, lemma_power_positive, lemma_power_small, lemma_two_to_64, power,
};

verus! {

/// The Newton iterate that follows `x` for the `d`-th root of `n`.
pub open spec fn newton_next(n: nat, x: nat, d: nat) -> int {
    ((d - 1) * x + (n as int) / (power(x, (d - 1) as nat) as int)) / (d as int)
}

/// `a >= d * r` exactly when `a / d >= r`, for a positive `d`.
proof fn lemma_div_at_least(a: int, d: int, r: int)
    requires
        d > 0,
    ensures
        a >= d * r <==> a / d >= r,
{
    lemma_fundamental_div_mod(a, d);
    lemma_mod_bound(a, d);
    let q = a / d;
    let m = a % d;
    assert(a == d * q + m && 0 <= m < d);
    assert(q >= r ==> a >= d * r) by (nonlinear_arith)
        requires
            a == d * q + m,
            0 <= m < d,
            d > 0,
    ;
    assert(q < r ==> a < d * r) by (nonlinear_arith)
        requires
            a == d * q + m,
            0 <= m < d,
            d > 0,
    ;
}

/// One Newton step from any positive `x` lands at or above the floor root.
proof fn lemma_step_stays_above(n: nat, x: nat, r: nat, d: nat)
    requires
        d >= 2,
        x >= 1,
        power(r, d) <= n,
    ensures
        newton_next(n, x, d) >= r,
{
    let p = power(x, (d - 1) as nat);
    lemma_power_positive(x, (d - 1) as nat);
    lemma_newton_mean_inequality(x, r, d);
    let m: int = d * r - (d - 1) * x;
    let q: int = (n as int) / (p as int);
    lemma_fundamental_div_mod(n as int, p as int);
    lemma_mod_bound(n as int, p as int);
    let rem = (n as int) % (p as int);
    assert(n == p * q + rem && 0 <= rem < p);
    assert(p * m <= n);
    assert(m > 0 ==> q >= m) by (nonlinear_arith)
        requires
            n == p * q + rem,
            0 <= rem < p,
            p * m <= n,
            p >= 1,
    ;
    assert(q >= 0);
    lemma_div_at_least((d - 1) * x + q, d as int, r as int);
}

/// Above the floor root, a Newton step strictly descends.
proof fn lemma_step_descends(n: nat, x: nat, r: nat, d: nat)
    requires
        d >= 2,
        is_floor_root(r, n, d),
        x > r,
    ensures
        newton_next(n, x, d) < x,
{
    let p = power(x, (d - 1) as nat);
    lemma_power_positive(x, (d - 1) as nat);
    lemma_power_base_monotonic(r + 1, x, d);
    assert(power(x, d) == x * p);
    let q: int = (n as int) / (p as int);
    lemma_fundamental_div_mod(n as int, p as int);
    lemma_mod_bound(n as int, p as int);
    let rem = (n as int) % (p as int);
    assert(n == p * q + rem && 0 <= rem < p);
    assert(n < x * p);
    assert(q < x) by (nonlinear_arith)
        requires
            n == p * q + rem,
            0 <= rem < p,
            n < x * p,
            p >= 1,
    ;
    assert((d - 1) * x + q < d * x) by (nonlinear_arith)
        requires
            q < x,
    ;
    lemma_div_at_least((d - 1) * x + q, d as int, x as int);
}

impl Uint {
    /// The least `k` with `self < 2^k`, at most the width.
    fn bit_length(self) -> (k: usize)
        ensures
            k as nat <= self.width(),
            self@ < power(2, k as nat),
    {
        proof {
            use_type_invariant(&self);
            lemma_power_small(2);
        }
        let n = self.value;
        let mut k: usize = 0;
        let mut p: u128 = 1;
        while k < self.bits && p <= n as u128
            invariant
                k <= self.bits <= 64,
                p as nat == power(2, k as nat),
                n as nat == self@,
                self@ < power(2, self.width()),
            decreases self.bits - k,
        {
            assert(power(2, (k + 1) as nat) == 2 * power(2, k as nat));
            p = p * 2;
            k = k + 1;
        }
        k
    }

    /// A first estimate of the `degree`-th root: `2^ceil(bit_length / degree)`,
    /// which lies strictly above the root and within the width.
    fn initial_guess(self, degree: usize) -> (g: u64)
        requires
            2 <= degree < self.width(),
        ensures
            (g as nat) < power(2, self.width()),
            self@ < power(g as nat, degree as nat),
    {
        proof {
            use_type_invariant(&self);
        }
        let k = self.bit_length();
        let e: usize = (k + degree - 1) / degree;
        proof {
            let a = (k + degree - 1) as int;
            let di = degree as int;
            lemma_fundamental_div_mod(a, di);
            lemma_mod_bound(a, di);
            let ei = e as int;
            let bi = self.bits as int;
            assert(ei == a / di);
            assert(a == di * ei + a % di);
            assert(ei * di <= a && a < ei * di + di) by (nonlinear_arith)
                requires
                    a == di * ei + a % di,
                    0 <= a % di < di,
            ;
            assert(ei < bi) by (nonlinear_arith)
                requires
                    ei * di <= a,
                    a == k + di - 1,
                    k <= bi,
                    2 <= di < bi,
            ;
            assert(k <= ei * di);
            lemma_power_exponent_monotonic(2, k as nat, (e * degree) as nat);
            lemma_power_of_power(2, e as nat, degree as nat);
            lemma_power_exponent_monotonic(2, (e + 1) as nat, self.bits as nat);
            lemma_power_positive(2, e as nat);
            assert(power(2, (e + 1) as nat) == 2 * power(2, e as nat));
            lemma_power_exponent_monotonic(2, self.bits as nat, 64);
            lemma_two_to_64();
        }
        let g = two_to(e);
        g as u64
    }

    /// The Newton iterate that follows `x`: the power `x^(degree-1)` is taken
    /// with overflow checked, and where it overflows the quotient is zero.
    fn newton_step(self, x: u64, degree: usize) -> (next: u128)
        requires
            2 <= degree < self.width(),
            1 <= x,
            (x as nat) < power(2, self.width()),
        ensures
            next as int == newton_next(self@, x as nat, degree as nat),
    {
        proof {
            use_type_invariant(&self);
        }
        let xv = Uint { bits: self.bits, value: x };
        let ghost pw = power(x as nat, (degree - 1) as nat);
        proof {
            lemma_power_positive(x as nat, (degree - 1) as nat);
        }
        let q: u64 = match xv.checked_pow(degree - 1) {
            Some(p) => self.value / p.value,
            None => {
                proof {
                    lemma_basic_div(self@ as int, pw as int);
                }
                0
            },
        };
        proof {
            lemma_power_exponent_monotonic(2, self.bits as nat, 64);
            lemma_two_to_64();
            let dd = (degree - 1) as int;
            let xx = x as int;
            assert(dd * xx <= 64 * 0x1_0000_0000_0000_0000) by (nonlinear_arith)
                requires
                    0 <= dd < 64,
                    0 <= xx < 0x1_0000_0000_0000_0000,
            ;
        }
        let s: u128 = (degree - 1) as u128 * (x as u128) + q as u128;
        s / degree as u128
    }

    /// The floor of the `degree`-th root: the largest `r` with
    /// `r^degree <= self`. The result has the width of `self`.
    pub fn root(self, degree: usize) -> (r: Self)
        requires
            degree > 0,
        ensures
            r.width() == self.width(),
            r@ == floor_root(self@, degree as nat),
            power(r@, degree as nat) <= self@,
            self@ < power(r@ + 1, degree as nat),
    {
        proof {
            use_type_invariant(&self);
            lemma_floor_root_bounds(self@, degree as nat);
        }
        if self.value == 0 {
            proof {
                lemma_floor_root_of_zero(degree as nat);
            }
            return self;
        }
        if degree >= self.bits {
            proof {
                lemma_floor_root_saturates(self@, degree as nat, self.width());
            }
            return Uint { bits: self.bits, value: 1 };
        }
        if degree == 1 {
            proof {
                lemma_floor_root_degree_one(self@);
            }
            return self;
        }
        let ghost rt = floor_root(self@, degree as nat);
        proof {
            lemma_one_power(degree as nat);
        }
        let mut x = self.initial_guess(degree);
        proof {
            if rt >= x {
                lemma_power_base_monotonic(x as nat, rt, degree as nat);
            }
        }
        let mut first = true;
        loop
            invariant
                2 <= degree < self.width() <= 64,
                self@ < power(2, self.width()),
                is_floor_root(rt, self@, degree as nat),
                rt == floor_root(self@, degree as nat),
                1 <= rt <= x,
                first ==> rt < x,
                (x as nat) < power(2, self.width()),
            decreases x,
        {
            let next = self.newton_step(x, degree);
            proof {
                lemma_step_stays_above(self@, x as nat, rt, degree as nat);
                if rt < x {
                    lemma_step_descends(self@, x as nat, rt, degree as nat);
                }
            }
            if !first && next >= x as u128 {
                return Uint { bits: self.bits, value: x };
            }
            first = false;
            x = next as u64;
        }
    }
}

} // verus!
