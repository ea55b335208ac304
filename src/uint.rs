//! An unsigned integer of a fixed bit width, for widths up to 64 bits.
use vstd::prelude::*;

use crate::power::{
    lemma_power_exponent_monotonic, lemma_power_positive, lemma_power_small, lemma_two_to_64, power,
};

mod root;

verus! {

/// An unsigned integer of width `bits` (at most 64), which holds a value
/// below `2^bits`; the zero width holds zero alone. Arithmetic combines
/// values of one width.
#[derive(Clone, Copy, Debug, PartialEq, Eq, Structural)]
pub struct Uint {
    bits: usize,
    value: u64,
}

/// `2^e` as a machine integer.
fn two_to(e: usize) -> (r: u128)
    requires
        e <= 64,
    ensures
        r as nat == power(2, e as nat),
{
    let mut r: u128 = 1;
    let mut i: usize = 0;
    while i < e
        invariant
            i <= e <= 64,
            r as nat == power(2, i as nat),
        decreases e - i,
    {
        proof {
            lemma_power_exponent_monotonic(2, (i + 1) as nat, 64);
            lemma_two_to_64();
            assert(power(2, (i + 1) as nat) == 2 * power(2, i as nat));
        }
        r = r * 2;
        i = i + 1;
    }
    r
}

impl Uint {
    #[verifier::type_invariant]
    spec fn fits(self) -> bool {
        self.bits <= 64 && (self.value as nat) < power(2, self.bits as nat)
    }

    /// The value as a natural number.
    pub closed spec fn view(&self) -> nat {
        self.value as nat
    }

    /// The width in bits.
    pub closed spec fn width(&self) -> nat {
        self.bits as nat
    }

    /// One past the largest value of this width.
    fn modulus(&self) -> (r: u128)
        ensures
            r as nat == power(2, self.width()),
    {
        proof {
            use_type_invariant(self);
        }
        two_to(self.bits)
    }

    /// The width in bits.
    pub fn bits(&self) -> (r: usize)
        ensures
            r as nat == self.width(),
    {
        self.bits
    }

    /// Zero in a width of `bits` bits, or `None` where `bits` exceeds 64.
    pub fn zero(bits: usize) -> (r: Option<Self>)
        ensures
            r is Some <==> bits <= 64,
            r matches Some(z) ==> z@ == 0 && z.width() == bits,
    {
        if bits <= 64 {
            proof {
                lemma_power_positive(2, bits as nat);
            }
            Some(Uint { bits, value: 0 })
        } else {
            None
        }
    }

    /// The value `v` in a width of `bits` bits, or `None` where the width
    /// exceeds 64 or `v` does not fit in it.
    pub fn try_new(bits: usize, v: u64) -> (r: Option<Self>)
        ensures
            r is Some <==> bits <= 64 && (v as nat) < power(2, bits as nat),
            r matches Some(x) ==> x@ == v && x.width() == bits,
    {
        if bits > 64 {
            return None;
        }
        if (v as u128) < two_to(bits) {
            Some(Uint { bits, value: v })
        } else {
            None
        }
    }

    /// The value as a machine integer.
    pub fn to_u64(self) -> (r: u64)
        ensures
            r as nat == self@,
    {
        self.value
    }

    /// `self + rhs`, or `None` where the sum does not fit in the width of
    /// `self`.
    pub fn checked_add(self, rhs: Self) -> (r: Option<Self>)
        requires
            self.width() == rhs.width(),
        ensures
            r is Some <==> self@ + rhs@ < power(2, self.width()),
            r matches Some(s) ==> s@ == self@ + rhs@ && s.width() == self.width(),
    {
        proof {
            use_type_invariant(&self);
        }
        let s: u128 = self.value as u128 + rhs.value as u128;
        if s < self.modulus() {
            proof {
                lemma_power_exponent_monotonic(2, self.bits as nat, 64);
                lemma_two_to_64();
            }
            Some(Uint { bits: self.bits, value: s as u64 })
        } else {
            None
        }
    }

    /// `self^exp`, or `None` where the power does not fit in the width of
    /// `self`.
    pub fn checked_pow(self, exp: usize) -> (r: Option<Self>)
        ensures
            r is Some <==> power(self@, exp as nat) < power(2, self.width()),
            r matches Some(p) ==> p@ == power(self@, exp as nat) && p.width() == self.width(),
    {
        proof {
            use_type_invariant(&self);
            lemma_power_exponent_monotonic(2, self.bits as nat, 64);
            lemma_two_to_64();
        }
        let bound = self.modulus();
        if exp == 0 {
            return if 1 < bound {
                Some(Uint { bits: self.bits, value: 1 })
            } else {
                None
            };
        }
        let x: u128 = self.value as u128;
        if x <= 1 {
            proof {
                lemma_unit_power(self@, exp as nat);
            }
            return Some(self);
        }
        let mut p: u128 = x;
        let mut i: usize = 1;
        proof {
            lemma_power_small(self@);
        }
        while i < exp
            invariant
                1 <= i <= exp,
                2 <= x < bound,
                x as nat == self@,
                bound as nat == power(2, self.width()),
                bound <= 0x1_0000_0000_0000_0000,
                p as nat == power(self@, i as nat),
                p < bound,
            decreases exp - i,
        {
            assert(p * x < 0x1_0000_0000_0000_0000 * 0x1_0000_0000_0000_0000) by (nonlinear_arith)
                requires
                    p < 0x1_0000_0000_0000_0000,
                    x < 0x1_0000_0000_0000_0000,
            ;
            proof {
                assert(power(self@, (i + 1) as nat) == self@ * power(self@, i as nat));
            }
            p = p * x;
            i = i + 1;
            if p >= bound {
                proof {
                    lemma_power_exponent_monotonic(self@, i as nat, exp as nat);
                }
                return None;
            }
        }
        Some(Uint { bits: self.bits, value: p as u64 })
    }
}

proof fn lemma_unit_power(b: nat, e: nat)
    requires
        b <= 1,
        e >= 1,
    ensures
        power(b, e) == b,
    decreases e,
{
    lemma_power_small(b);
    if e > 1 {
        lemma_unit_power(b, (e - 1) as nat);
        assert(power(b, e) == b * power(b, (e - 1) as nat));
        assert(b * b == b) by (nonlinear_arith)
            requires
                b <= 1,
        ;
    }
}

} // verus!
