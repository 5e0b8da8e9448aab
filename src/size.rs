//! Exact non-negative lengths and two-dimensional sizes.
//!
//! A [`Frac`] is the value `num / den`. A zero denominator with a non-zero
//! numerator stands for an unbounded (infinite) length; `0 / 0` is not a
//! value. Comparisons are made by cross-multiplication, which orders the
//! unbounded length above every finite one.
use vstd::prelude::*;

verus! {

pub const FRAC_MAX: u64 = 0xffff_ffff_ffff_ffff;

/// A non-negative exact fraction `num / den`, or unbounded when `den == 0`.
#[derive(Clone, Copy, Debug)]
pub struct Frac {
    pub num: u64,
    pub den: u64,
}

impl Frac {
    /// Not the undefined `0 / 0`.
    pub open spec fn wf(self) -> bool {
        self.num > 0 || self.den > 0
    }

    pub open spec fn is_finite(self) -> bool {
        self.den > 0
    }

    /// An integer, or the canonical unbounded value `1 / 0`.
    pub open spec fn is_whole(self) -> bool {
        self.den == 1 || (self.den == 0 && self.num == 1)
    }

    /// `self <= other` by value.
    pub open spec fn le(self, other: Frac) -> bool {
        self.num * other.den <= other.num * self.den
    }

    /// `self < other` by value.
    pub open spec fn lt(self, other: Frac) -> bool {
        self.num * other.den < other.num * self.den
    }

    /// Equal by value.
    pub open spec fn same(self, other: Frac) -> bool {
        self.num * other.den == other.num * self.den
    }

    pub open spec fn whole_spec(n: u64) -> Frac {
        Frac { num: n, den: 1 }
    }

    pub open spec fn unbounded_spec() -> Frac {
        Frac { num: 1, den: 0 }
    }

    /// Product of two fractions; a zero factor makes the product zero, also
    /// against an unbounded one.
    pub open spec fn mul_spec(self, other: Frac) -> Frac {
        if self.num == 0 || other.num == 0 {
            Frac { num: 0, den: 1 }
        } else {
            Frac { num: (self.num * other.num) as u64, den: (self.den * other.den) as u64 }
        }
    }

    pub open spec fn mul_fits(self, other: Frac) -> bool {
        self.num * other.num <= FRAC_MAX && self.den * other.den <= FRAC_MAX
    }

    /// `1 / self`; the reciprocal of zero is unbounded.
    pub open spec fn recip_spec(self) -> Frac {
        Frac { num: self.den, den: self.num }
    }

    /// Rounded away from zero (upwards, all values being non-negative) to a
    /// whole value.
    pub open spec fn expand_spec(self) -> Frac {
        if self.den == 0 {
            Frac::unbounded_spec()
        } else {
            Frac { num: (self.num / self.den + if self.num % self.den == 0 { 0int } else { 1int }) as u64, den: 1 }
        }
    }

    /// Creates `num / den`.
    pub fn new(num: u64, den: u64) -> (r: Frac)
        requires
            (Frac { num, den }).wf(),
        ensures
            r == (Frac { num, den }),
    {
        Frac { num, den }
    }

    /// The whole number `n`.
    pub fn whole(n: u64) -> (r: Frac)
        ensures
            r == Frac::whole_spec(n),
    {
        Frac { num: n, den: 1 }
    }

    /// The unbounded length.
    pub fn unbounded() -> (r: Frac)
        ensures
            r == Frac::unbounded_spec(),
    {
        Frac { num: 1, den: 0 }
    }

    /// Whether this length is finite.
    pub fn finite(&self) -> (r: bool)
        ensures
            r == self.is_finite(),
    {
        self.den > 0
    }

    /// `self <= other` by value.
    pub fn le_exec(&self, other: &Frac) -> (r: bool)
        ensures
            r == self.le(*other),
    {
        proof {
            lemma_u64_mul_fits(self.num, other.den);
            lemma_u64_mul_fits(other.num, self.den);
        }
        (self.num as u128) * (other.den as u128) <= (other.num as u128) * (self.den as u128)
    }

    /// `self < other` by value.
    pub fn lt_exec(&self, other: &Frac) -> (r: bool)
        ensures
            r == self.lt(*other),
    {
        proof {
            lemma_u64_mul_fits(self.num, other.den);
            lemma_u64_mul_fits(other.num, self.den);
        }
        (self.num as u128) * (other.den as u128) < (other.num as u128) * (self.den as u128)
    }

    /// Product of two fractions.
    pub fn mul(&self, other: &Frac) -> (r: Frac)
        requires
            self.mul_fits(*other),
        ensures
            r == self.mul_spec(*other),
    {
        if self.num == 0 || other.num == 0 {
            Frac { num: 0, den: 1 }
        } else {
            Frac { num: self.num * other.num, den: self.den * other.den }
        }
    }

    /// The reciprocal.
    pub fn recip(&self) -> (r: Frac)
        ensures
            r == self.recip_spec(),
    {
        Frac { num: self.den, den: self.num }
    }

    /// Rounds away from zero to a whole value.
    pub fn expand(&self) -> (r: Frac)
        ensures
            r == self.expand_spec(),
            r.is_whole(),
    {
        if self.den == 0 {
            Frac { num: 1, den: 0 }
        } else {
            let q = self.num / self.den;
            proof {
                vstd::arithmetic::div_mod::lemma_div_is_ordered_by_denominator(self.num as int, 1, self.den as int);
            }
            if self.num % self.den == 0 {
                Frac { num: q, den: 1 }
            } else {
                proof {
                    vstd::arithmetic::div_mod::lemma_fundamental_div_mod(self.num as int, self.den as int);
                    assert(q < self.num) by (nonlinear_arith)
                        requires
                            self.num == self.den * q + self.num % self.den,
                            self.num % self.den > 0,
                            self.den >= 1,
                            q <= self.num;
                }
                Frac { num: q + 1, den: 1 }
            }
        }
    }
}

impl PartialEq for Frac {
    fn eq(&self, other: &Frac) -> (r: bool) {
        proof {
            lemma_u64_mul_fits(self.num, other.den);
            lemma_u64_mul_fits(other.num, self.den);
        }
        (self.num as u128) * (other.den as u128) == (other.num as u128) * (self.den as u128)
    }
}

impl vstd::std_specs::cmp::PartialEqSpecImpl for Frac {
    open spec fn obeys_eq_spec() -> bool {
        true
    }

    open spec fn eq_spec(&self, other: &Frac) -> bool {
        self.same(*other)
    }
}

/// The product of two `u64` values fits in a `u128`.
pub proof fn lemma_u64_mul_fits(a: u64, b: u64)
    ensures
        (a as int) * (b as int) <= 0xffff_ffff_ffff_ffff_ffff_ffff_ffff_ffff,
        (a as int) * (b as int) >= 0,
{
    assert((a as int) * (b as int) <= 0xffff_ffff_ffff_ffff * 0xffff_ffff_ffff_ffff) by (nonlinear_arith)
        requires
            a <= 0xffff_ffff_ffff_ffffu64,
            b <= 0xffff_ffff_ffff_ffffu64,
    ;
    assert((a as int) * (b as int) >= 0) by (nonlinear_arith);
}

/// A two-dimensional size: a width and a height.
#[derive(Clone, Copy, Debug, PartialEq)]
pub struct Size {
    pub width: Frac,
    pub height: Frac,
}

impl Size {
    pub open spec fn zero_spec() -> Size {
        Size { width: Frac::whole_spec(0), height: Frac::whole_spec(0) }
    }

    /// Both components rounded away from zero.
    pub open spec fn expand_spec(self) -> Size {
        Size { width: self.width.expand_spec(), height: self.height.expand_spec() }
    }

    /// Equal by value in both components.
    pub open spec fn same(self, other: Size) -> bool {
        self.width.same(other.width) && self.height.same(other.height)
    }

    /// A size of whole numbers of pixels.
    pub fn new(width: u64, height: u64) -> (r: Size)
        ensures
            r == (Size { width: Frac::whole_spec(width), height: Frac::whole_spec(height) }),
    {
        Size { width: Frac::whole(width), height: Frac::whole(height) }
    }

    /// A size from two fractions.
    pub fn from_fracs(width: Frac, height: Frac) -> (r: Size)
        ensures
            r == (Size { width, height }),
    {
        Size { width, height }
    }

    /// The empty size.
    pub fn zero() -> (r: Size)
        ensures
            r == Size::zero_spec(),
    {
        Size::new(0, 0)
    }

    /// Rounds both components away from zero.
    pub fn expand(&self) -> (r: Size)
        ensures
            r == self.expand_spec(),
            r.width.is_whole(),
            r.height.is_whole(),
    {
        Size { width: self.width.expand(), height: self.height.expand() }
    }
}

} // verus!
