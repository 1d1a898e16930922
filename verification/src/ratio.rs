//! Exact fractions of machine integers. Densities and the density threshold
//! are compared by cross-multiplication, so no rounding ever enters a decision.

use vstd::prelude::*;

verus! {

/// The fraction `num / den`. It is well formed when `den` is positive.
#[derive(Clone, Copy, Debug, PartialEq, Eq, Structural)]
pub struct Ratio {
    pub num: usize,
    pub den: usize,
}

/// The least integer that is at least `a / b`, for positive `b`.
pub open spec fn ceil_div(a: int, b: int) -> int {
    (a + b - 1) / b
}

/// `ceil_div(a, b)` is the integer `q` with `(q - 1) * b < a <= q * b`.
pub proof fn lemma_ceil_div(a: int, b: int)
    requires
        0 <= a,
        0 < b,
    ensures
        (ceil_div(a, b) - 1) * b < a <= ceil_div(a, b) * b,
{
    let c = ceil_div(a, b);
    vstd::arithmetic::div_mod::lemma_fundamental_div_mod(a + b - 1, b);
    vstd::arithmetic::div_mod::lemma_mod_bound(a + b - 1, b);
    assert(b * c == c * b) by (nonlinear_arith);
    assert((c - 1) * b == c * b - b) by (nonlinear_arith);
}

impl Ratio {
    /// The denominator is positive.
    pub open spec fn wf(self) -> bool {
        self.den > 0
    }

    /// The fraction lies in the half-open unit interval `(0, 1]`.
    pub open spec fn in_unit(self) -> bool {
        0 < self.num <= self.den
    }

    /// The fraction lies in the closed unit interval `[0, 1]`.
    pub open spec fn is_probability(self) -> bool {
        self.den > 0 && self.num <= self.den
    }

    /// `self >= other`, for well-formed fractions.
    pub open spec fn ge_spec(self, other: Ratio) -> bool {
        self.num * other.den >= other.num * self.den
    }

    /// `self > other`, for well-formed fractions.
    pub open spec fn gt_spec(self, other: Ratio) -> bool {
        self.num * other.den > other.num * self.den
    }

    /// `ceil(self * x)`.
    pub open spec fn ceil_of_spec(self, x: int) -> int {
        ceil_div(self.num * x, self.den as int)
    }

    /// Whether the fraction lies in `(0, 1]`.
    pub fn is_in_unit(&self) -> (r: bool)
        ensures
            r == self.in_unit(),
    {
        0 < self.num && self.num <= self.den
    }

    /// Whether `self >= other`.
    pub fn ge(&self, other: &Ratio) -> (r: bool)
        ensures
            r == self.ge_spec(*other),
    {
        proof {
            lemma_product_fits(self.num, other.den);
            lemma_product_fits(other.num, self.den);
        }
        (self.num as u128) * (other.den as u128) >= (other.num as u128) * (self.den as u128)
    }

    /// Whether `self > other`.
    pub fn gt(&self, other: &Ratio) -> (r: bool)
        ensures
            r == self.gt_spec(*other),
    {
        proof {
            lemma_product_fits(self.num, other.den);
            lemma_product_fits(other.num, self.den);
        }
        (self.num as u128) * (other.den as u128) > (other.num as u128) * (self.den as u128)
    }

    /// `ceil(self * x)`, for a fraction of at most one.
    pub fn ceil_of(&self, x: usize) -> (r: usize)
        requires
            self.is_probability(),
        ensures
            r == self.ceil_of_spec(x as int),
            r <= x,
    {
        proof {
            lemma_product_fits(self.num, x);
            lemma_ceil_of_bound(*self, x as int);
        }
        let top: u128 = (self.num as u128) * (x as u128) + (self.den as u128) - 1;
        let q: u128 = top / (self.den as u128);
        q as usize
    }
}

/// The product of two machine words fits in 128 bits with room to spare.
pub proof fn lemma_product_fits(a: usize, b: usize)
    ensures
        a * b <= 0xFFFF_FFFF_FFFF_FFFF * 0xFFFF_FFFF_FFFF_FFFF,
        a * b + 0xFFFF_FFFF_FFFF_FFFF <= u128::MAX,
{
    assert(a * b <= 0xFFFF_FFFF_FFFF_FFFF * 0xFFFF_FFFF_FFFF_FFFF) by (nonlinear_arith)
        requires 0 <= a <= 0xFFFF_FFFF_FFFF_FFFF, 0 <= b <= 0xFFFF_FFFF_FFFF_FFFF;
}

/// A fraction of at most one never rounds a count up past itself.
pub proof fn lemma_ceil_of_bound(g: Ratio, x: int)
    requires
        g.is_probability(),
        0 <= x,
    ensures
        0 <= g.ceil_of_spec(x) <= x,
        g.num > 0 && x > 0 ==> g.ceil_of_spec(x) >= 1,
{
    let a = g.num * x;
    let b = g.den as int;
    assert(0 <= a <= x * b) by (nonlinear_arith)
        requires a == g.num * x, 0 <= g.num <= b, 0 <= x;
    lemma_ceil_div(a, b);
    assert((x - 1) * b + b == x * b) by (nonlinear_arith);
    let c = ceil_div(a, b);
    if c > x {
        assert((c - 1) * b >= x * b) by (nonlinear_arith)
            requires c - 1 >= x, b > 0;
    }
    if c < 0 {
        assert(c * b < 0) by (nonlinear_arith)
            requires c < 0, b > 0;
    }
    if g.num > 0 && x > 0 {
        assert(a > 0) by (nonlinear_arith)
            requires a == g.num * x, g.num > 0, x > 0;
        if c <= 0 {
            assert(c * b <= 0) by (nonlinear_arith)
                requires c <= 0, b > 0;
        }
    }
}

} // verus!
