//! Exact non-negative rational quantities.
//!
//! Inventory amounts and recipe amounts are `num / den` with a positive
//! denominator. Comparisons go by cross-multiplication, so they are exact:
//! no tolerance constant is needed, unlike a floating-point representation.
//! Every arithmetic result is reduced by the greatest common divisor of its
//! raw numerator and denominator, so denominators stay bounded under
//! repeated stepping instead of growing with every operation. The checked
//! operations return `None` only where even the reduced result does not fit
//! in 64 bits.

use vstd::arithmetic::div_mod::{
    lemma_fundamental_div_mod, lemma_mod_bound, lemma_mod_multiples_basic, lemma_mod_self_0,
    lemma_small_mod,
};
use vstd::arithmetic::mul::lemma_mul_upper_bound;
use vstd::prelude::*;

verus! {

/// An exact non-negative rational quantity, `num / den`.
#[derive(Clone, Copy, Debug, PartialEq, Eq, Structural)]
pub struct Qty {
    pub num: u64,
    pub den: u64,
}

/// Euclid's greatest common divisor.
pub open spec fn gcd(a: nat, b: nat) -> nat
    decreases b,
{
    if b == 0 {
        a
    } else {
        gcd(b, a % b)
    }
}

/// What `gcd` returns: a positive common divisor of both arguments, as long
/// as they are not both zero.
pub proof fn lemma_gcd_divides(a: nat, b: nat)
    requires
        a + b >= 1,
    ensures
        gcd(a, b) >= 1,
        a % gcd(a, b) == 0,
        b % gcd(a, b) == 0,
    decreases b,
{
    let g = gcd(a, b);
    if b == 0 {
        lemma_mod_self_0(a as int);
        lemma_small_mod(0, a);
    } else {
        lemma_mod_bound(a as int, b as int);
        let r = a % b;
        lemma_gcd_divides(b, r);
        lemma_fundamental_div_mod(a as int, b as int);
        lemma_fundamental_div_mod(b as int, g as int);
        lemma_fundamental_div_mod(r as int, g as int);
        let q = a as int / b as int;
        let bg = b as int / g as int;
        let rg = r as int / g as int;
        assert(a as int == (bg * q + rg) * (g as int)) by (nonlinear_arith)
            requires
                a as int == (b as int) * q + (r as int),
                b as int == (g as int) * bg,
                r as int == (g as int) * rg,
        ;
        lemma_mod_multiples_basic(bg * q + rg, g as int);
    }
}

/// The canonical (gcd-reduced) representation of `n / d`, or `None` where
/// even reduced it does not fit in 64 bits.
pub open spec fn norm_spec(n: int, d: int) -> Option<Qty> {
    let g = gcd(n as nat, d as nat) as int;
    let rn = n / g;
    let rd = d / g;
    if rn > u64::MAX || rd > u64::MAX {
        None
    } else {
        Some(Qty { num: rn as u64, den: rd as u64 })
    }
}

/// What reduction preserves: a quantity returned by `norm_spec(n, d)` is
/// well-formed and denotes exactly the rational `n / d`.
pub proof fn lemma_norm_val(n: int, d: int)
    requires
        0 <= n,
        1 <= d,
        norm_spec(n, d) is Some,
    ensures
        ({
            let q = norm_spec(n, d)->Some_0;
            q.wf() && q.num * d == n * q.den && q.num <= n
        }),
{
    let g = gcd(n as nat, d as nat) as int;
    lemma_gcd_divides(n as nat, d as nat);
    lemma_fundamental_div_mod(n, g);
    lemma_fundamental_div_mod(d, g);
    let rn = n / g;
    let rd = d / g;
    assert(n == g * rn);
    assert(d == g * rd);
    assert(rd >= 1) by (nonlinear_arith)
        requires
            d == g * rd,
            d >= 1,
            g >= 1,
    ;
    assert(rn >= 0) by (nonlinear_arith)
        requires
            n == g * rn,
            n >= 0,
            g >= 1,
    ;
    assert(rn <= n) by (nonlinear_arith)
        requires
            n == g * rn,
            rn >= 0,
            g >= 1,
    ;
    assert(rn * d == n * rd) by (nonlinear_arith)
        requires
            n == g * rn,
            d == g * rd,
    ;
}

impl Qty {
    /// Well-formed: the denominator is positive.
    pub open spec fn wf(self) -> bool {
        self.den >= 1
    }

    /// `self >= other` as rational values, by cross-multiplication.
    pub open spec fn spec_ge(self, other: Qty) -> bool {
        self.num * other.den >= other.num * self.den
    }

    /// `self` and `other` denote the same rational value
    /// (their representations may differ).
    pub open spec fn same_val(self, other: Qty) -> bool {
        self.num * other.den == other.num * self.den
    }

    /// The sum `a + b`, reduced; `None` where it does not fit.
    pub open spec fn add_spec(a: Qty, b: Qty) -> Option<Qty> {
        let n = a.num * b.den + b.num * a.den;
        let d = a.den * b.den;
        if n > u64::MAX * u64::MAX {
            None
        } else {
            norm_spec(n, d)
        }
    }

    /// The difference `a - b`, reduced; `None` where it would be negative
    /// or does not fit.
    pub open spec fn sub_spec(a: Qty, b: Qty) -> Option<Qty> {
        if a.num * b.den < b.num * a.den {
            None
        } else {
            norm_spec(a.num * b.den - b.num * a.den, a.den * b.den)
        }
    }

    /// The quotient `a / ticks`, reduced; `None` where it does not fit.
    pub open spec fn div_spec(a: Qty, ticks: u64) -> Option<Qty> {
        norm_spec(a.num as int, a.den * ticks)
    }

    /// Builds the quantity `num / den`.
    pub fn new(num: u64, den: u64) -> (r: Qty)
        requires
            den >= 1,
        ensures
            r == (Qty { num, den }),
            r.wf(),
    {
        Qty { num, den }
    }

    /// The quantity zero.
    pub fn zero() -> (r: Qty)
        ensures
            r == (Qty { num: 0u64, den: 1u64 }),
            r.wf(),
    {
        Qty { num: 0, den: 1 }
    }

    /// A whole number of units.
    pub fn from_units(units: u64) -> (r: Qty)
        ensures
            r == (Qty { num: units, den: 1u64 }),
            r.wf(),
    {
        Qty { num: units, den: 1 }
    }

    /// Exact comparison `self >= other`.
    pub fn ge(self, other: Qty) -> (r: bool)
        ensures
            r == self.spec_ge(other),
    {
        proof {
            lemma_mul_upper_bound(self.num as int, u64::MAX as int, other.den as int, u64::MAX as int);
            lemma_mul_upper_bound(other.num as int, u64::MAX as int, self.den as int, u64::MAX as int);
        }
        let lhs: u128 = (self.num as u128) * (other.den as u128);
        let rhs: u128 = (other.num as u128) * (self.den as u128);
        lhs >= rhs
    }

    /// Exact value equality, independent of representation.
    pub fn eq_val(self, other: Qty) -> (r: bool)
        ensures
            r == self.same_val(other),
    {
        proof {
            lemma_mul_upper_bound(self.num as int, u64::MAX as int, other.den as int, u64::MAX as int);
            lemma_mul_upper_bound(other.num as int, u64::MAX as int, self.den as int, u64::MAX as int);
        }
        let lhs: u128 = (self.num as u128) * (other.den as u128);
        let rhs: u128 = (other.num as u128) * (self.den as u128);
        lhs == rhs
    }

    /// Checked, reducing addition.
    pub fn try_add(self, other: Qty) -> (r: Option<Qty>)
        requires
            self.wf(),
            other.wf(),
        ensures
            r == Self::add_spec(self, other),
    {
        proof {
            lemma_mul_upper_bound(self.num as int, u64::MAX as int, other.den as int, u64::MAX as int);
            lemma_mul_upper_bound(other.num as int, u64::MAX as int, self.den as int, u64::MAX as int);
            lemma_mul_upper_bound(self.den as int, u64::MAX as int, other.den as int, u64::MAX as int);
            lemma_mul_upper_bound(u64::MAX as int, u64::MAX as int, u64::MAX as int, u64::MAX as int);
        }
        let bound: u128 = (u64::MAX as u128) * (u64::MAX as u128);
        let prod1: u128 = (self.num as u128) * (other.den as u128);
        let prod2: u128 = (other.num as u128) * (self.den as u128);
        if prod1 > bound || prod2 > bound - prod1 {
            return None;
        }
        let n: u128 = prod1 + prod2;
        let d: u128 = (self.den as u128) * (other.den as u128);
        proof {
            assert(d >= 1) by (nonlinear_arith)
                requires
                    d == self.den * other.den,
                    self.den >= 1,
                    other.den >= 1,
            ;
        }
        reduce128(n, d)
    }

    /// Checked, reducing subtraction; `None` where the result would be
    /// negative.
    pub fn try_sub(self, other: Qty) -> (r: Option<Qty>)
        requires
            self.wf(),
            other.wf(),
        ensures
            r == Self::sub_spec(self, other),
    {
        proof {
            lemma_mul_upper_bound(self.num as int, u64::MAX as int, other.den as int, u64::MAX as int);
            lemma_mul_upper_bound(other.num as int, u64::MAX as int, self.den as int, u64::MAX as int);
            lemma_mul_upper_bound(self.den as int, u64::MAX as int, other.den as int, u64::MAX as int);
        }
        let lhs: u128 = (self.num as u128) * (other.den as u128);
        let rhs: u128 = (other.num as u128) * (self.den as u128);
        if lhs < rhs {
            return None;
        }
        let n: u128 = lhs - rhs;
        let d: u128 = (self.den as u128) * (other.den as u128);
        proof {
            assert(d >= 1) by (nonlinear_arith)
                requires
                    d == self.den * other.den,
                    self.den >= 1,
                    other.den >= 1,
            ;
        }
        reduce128(n, d)
    }

    /// Checked, reducing division by a number of ticks.
    pub fn div_by(self, ticks: u64) -> (r: Option<Qty>)
        requires
            self.wf(),
            ticks >= 1,
        ensures
            r == Self::div_spec(self, ticks),
    {
        proof {
            lemma_mul_upper_bound(self.den as int, u64::MAX as int, ticks as int, u64::MAX as int);
        }
        let d: u128 = (self.den as u128) * (ticks as u128);
        proof {
            assert(d >= 1) by (nonlinear_arith)
                requires
                    d == self.den * ticks,
                    self.den >= 1,
                    ticks >= 1,
            ;
        }
        reduce128(self.num as u128, d)
    }
}

/// Euclid's algorithm.
fn gcd_u128(a0: u128, b0: u128) -> (g: u128)
    ensures
        g == gcd(a0 as nat, b0 as nat),
{
    let mut a = a0;
    let mut b = b0;
    while b != 0
        invariant
            gcd(a as nat, b as nat) == gcd(a0 as nat, b0 as nat),
        decreases b,
    {
        let r = a % b;
        a = b;
        b = r;
    }
    a
}

/// Reduces `n / d` by their greatest common divisor and narrows the result
/// to 64 bits.
fn reduce128(n: u128, d: u128) -> (r: Option<Qty>)
    requires
        d >= 1,
    ensures
        r == norm_spec(n as int, d as int),
{
    proof {
        lemma_gcd_divides(n as nat, d as nat);
    }
    let g = gcd_u128(n, d);
    let rn = n / g;
    let rd = d / g;
    if rn > u64::MAX as u128 || rd > u64::MAX as u128 {
        None
    } else {
        Some(Qty { num: rn as u64, den: rd as u64 })
    }
}

/// What a successful reducing addition denotes: exactly the rational sum,
/// by cross-multiplication over the raw products.
pub proof fn lemma_add_val(a: Qty, b: Qty)
    requires
        a.wf(),
        b.wf(),
        Qty::add_spec(a, b) is Some,
    ensures
        ({
            let q = Qty::add_spec(a, b)->Some_0;
            q.wf() && q.num * (a.den * b.den) == (a.num * b.den + b.num * a.den) * q.den
        }),
{
    assert(a.den * b.den >= 1) by (nonlinear_arith)
        requires
            a.den >= 1,
            b.den >= 1,
    ;
    assert(a.num * b.den >= 0 && b.num * a.den >= 0) by (nonlinear_arith)
        requires
            a.num >= 0,
            b.num >= 0,
            a.den >= 1,
            b.den >= 1,
    ;
    lemma_norm_val(a.num * b.den + b.num * a.den, a.den * b.den);
}

/// What a successful reducing subtraction denotes: exactly the rational
/// difference.
pub proof fn lemma_sub_val(a: Qty, b: Qty)
    requires
        a.wf(),
        b.wf(),
        Qty::sub_spec(a, b) is Some,
    ensures
        ({
            let q = Qty::sub_spec(a, b)->Some_0;
            q.wf() && q.num * (a.den * b.den) == (a.num * b.den - b.num * a.den) * q.den
        }),
{
    assert(a.den * b.den >= 1) by (nonlinear_arith)
        requires
            a.den >= 1,
            b.den >= 1,
    ;
    lemma_norm_val(a.num * b.den - b.num * a.den, a.den * b.den);
}

/// What a successful reducing division denotes: exactly the rational
/// `a / ticks`.
pub proof fn lemma_div_val(a: Qty, ticks: u64)
    requires
        a.wf(),
        ticks >= 1,
        Qty::div_spec(a, ticks) is Some,
    ensures
        ({
            let q = Qty::div_spec(a, ticks)->Some_0;
            q.wf() && q.num * (a.den * ticks) == a.num * q.den && q.num <= a.num
        }),
{
    assert(a.den * ticks >= 1) by (nonlinear_arith)
        requires
            a.den >= 1,
            ticks >= 1,
    ;
    lemma_norm_val(a.num as int, a.den * ticks);
}

} // verus!
