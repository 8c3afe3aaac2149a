//! Exact non-negative rational numbers.
//!
//! Craft times, per-cycle quantities and rates are non-negative reals in the
//! data model. They are kept here as unreduced fractions of two machine
//! words, so every computation in the engine is exact: a result is either the
//! mathematically correct fraction or a reported overflow, never a rounded
//! value.

use vstd::arithmetic::mul::lemma_mul_strictly_positive;
use vstd::arithmetic::mul::lemma_mul_upper_bound;
use vstd::prelude::*;

verus! {

/// A non-negative rational number `num / den`, as an unreduced fraction.
///
/// A value is well formed ([`Ratio::wf`]) when its denominator is positive.
/// Fractions are not reduced, so `==` (derived, structural) distinguishes
/// `1/2` from `2/4`; [`rat_eq`] is equality of the represented values.
#[derive(Clone, Copy, PartialEq, Eq, Structural, Debug)]
pub struct Ratio {
    pub num: u64,
    pub den: u64,
}

impl Ratio {
    /// The denominator is positive, so the fraction denotes a rational.
    pub open spec fn wf(self) -> bool {
        self.den > 0
    }

    /// The represented value is zero.
    pub open spec fn is_zero_spec(self) -> bool {
        self.num == 0
    }

    /// The represented value is at least one.
    pub open spec fn ge_one_spec(self) -> bool {
        self.num >= self.den
    }

    /// The rational `n / d`.
    pub fn new(num: u64, den: u64) -> (r: Ratio)
        requires
            den > 0,
        ensures
            r == (Ratio { num, den }),
            r.wf(),
    {
        Ratio { num, den }
    }

    /// The rational zero.
    pub fn zero() -> (r: Ratio)
        ensures
            r == spec_zero(),
            r.wf(),
    {
        Ratio { num: 0, den: 1 }
    }

    /// The numerator of the unreduced fraction.
    pub fn num(&self) -> (r: u64)
        ensures
            r == self.num,
    {
        self.num
    }

    /// The denominator of the unreduced fraction.
    pub fn den(&self) -> (r: u64)
        ensures
            r == self.den,
    {
        self.den
    }

    /// Whether the represented value is zero.
    pub fn is_zero(&self) -> (r: bool)
        ensures
            r == self.is_zero_spec(),
    {
        self.num == 0
    }

    /// Whether the represented value is at least one.
    pub fn ge_one(&self) -> (r: bool)
        ensures
            r == self.ge_one_spec(),
    {
        self.num >= self.den
    }

    /// The product, or `None` when a component of the unreduced result does
    /// not fit in a machine word.
    pub fn checked_mul(self, other: Ratio) -> (r: Option<Ratio>)
        requires
            self.wf(),
            other.wf(),
        ensures
            r == spec_mul(self, other),
            r is Some ==> r->Some_0.wf(),
    {
        proof {
            lemma_mul_upper_bound(self.num as int, u64::MAX as int, other.num as int, u64::MAX as int);
            lemma_mul_upper_bound(self.den as int, u64::MAX as int, other.den as int, u64::MAX as int);
            lemma_mul_strictly_positive(self.den as int, other.den as int);
        }
        let n: u128 = (self.num as u128) * (other.num as u128);
        let d: u128 = (self.den as u128) * (other.den as u128);
        if n <= u64::MAX as u128 && d <= u64::MAX as u128 {
            Some(Ratio { num: n as u64, den: d as u64 })
        } else {
            None
        }
    }

    /// The quotient, or `None` when the divisor is zero or a component of the
    /// unreduced result does not fit in a machine word.
    pub fn checked_div(self, other: Ratio) -> (r: Option<Ratio>)
        requires
            self.wf(),
            other.wf(),
        ensures
            r == spec_div(self, other),
            r is Some ==> r->Some_0.wf(),
    {
        if other.num == 0 {
            return None;
        }
        proof {
            lemma_mul_upper_bound(self.num as int, u64::MAX as int, other.den as int, u64::MAX as int);
            lemma_mul_upper_bound(self.den as int, u64::MAX as int, other.num as int, u64::MAX as int);
            lemma_mul_strictly_positive(self.den as int, other.num as int);
        }
        let n: u128 = (self.num as u128) * (other.den as u128);
        let d: u128 = (self.den as u128) * (other.num as u128);
        if n <= u64::MAX as u128 && d <= u64::MAX as u128 {
            Some(Ratio { num: n as u64, den: d as u64 })
        } else {
            None
        }
    }

    /// The sum, or `None` when a component of the unreduced result does not
    /// fit in a machine word.
    pub fn checked_add(self, other: Ratio) -> (r: Option<Ratio>)
        requires
            self.wf(),
            other.wf(),
        ensures
            r == spec_add(self, other),
            r is Some ==> r->Some_0.wf(),
    {
        proof {
            lemma_mul_upper_bound(self.num as int, u64::MAX as int, other.den as int, u64::MAX as int);
            lemma_mul_upper_bound(other.num as int, u64::MAX as int, self.den as int, u64::MAX as int);
            lemma_mul_upper_bound(self.den as int, u64::MAX as int, other.den as int, u64::MAX as int);
            lemma_mul_strictly_positive(self.den as int, other.den as int);
        }
        let n1: u128 = (self.num as u128) * (other.den as u128);
        let n2: u128 = (other.num as u128) * (self.den as u128);
        let d: u128 = (self.den as u128) * (other.den as u128);
        if n1 <= u64::MAX as u128 && n2 <= u64::MAX as u128 && n1 + n2 <= u64::MAX as u128
            && d <= u64::MAX as u128 {
            Some(Ratio { num: (n1 + n2) as u64, den: d as u64 })
        } else {
            None
        }
    }
}

/// The fraction `0 / 1`.
pub open spec fn spec_zero() -> Ratio {
    Ratio { num: 0, den: 1 }
}

/// A product of well-formed fractions, when it fits, is well formed.
pub proof fn lemma_mul_wf(a: Ratio, b: Ratio)
    requires
        a.wf(),
        b.wf(),
        spec_mul(a, b) is Some,
    ensures
        spec_mul(a, b)->Some_0.wf(),
{
    lemma_mul_strictly_positive(a.den as int, b.den as int);
}

/// A quotient of well-formed fractions, when it exists and fits, is well
/// formed.
pub proof fn lemma_div_wf(a: Ratio, b: Ratio)
    requires
        a.wf(),
        b.wf(),
        spec_div(a, b) is Some,
    ensures
        spec_div(a, b)->Some_0.wf(),
{
    lemma_mul_strictly_positive(a.den as int, b.num as int);
}

/// A sum of well-formed fractions, when it fits, is well formed.
pub proof fn lemma_add_wf(a: Ratio, b: Ratio)
    requires
        a.wf(),
        b.wf(),
        spec_add(a, b) is Some,
    ensures
        spec_add(a, b)->Some_0.wf(),
{
    lemma_mul_strictly_positive(a.den as int, b.den as int);
}

/// The represented values are equal: `a.num / a.den == b.num / b.den`.
pub open spec fn rat_eq(a: Ratio, b: Ratio) -> bool {
    a.num * b.den == b.num * a.den
}

/// The unreduced product, or `None` when a component exceeds `u64::MAX`.
pub open spec fn spec_mul(a: Ratio, b: Ratio) -> Option<Ratio> {
    if a.num * b.num <= u64::MAX && a.den * b.den <= u64::MAX {
        Some(Ratio { num: (a.num * b.num) as u64, den: (a.den * b.den) as u64 })
    } else {
        None
    }
}

/// The unreduced quotient, or `None` when the divisor is zero or a component
/// exceeds `u64::MAX`.
pub open spec fn spec_div(a: Ratio, b: Ratio) -> Option<Ratio> {
    if b.num == 0 {
        None
    } else if a.num * b.den <= u64::MAX && a.den * b.num <= u64::MAX {
        Some(Ratio { num: (a.num * b.den) as u64, den: (a.den * b.num) as u64 })
    } else {
        None
    }
}

/// The unreduced sum, or `None` when a component exceeds `u64::MAX`.
pub open spec fn spec_add(a: Ratio, b: Ratio) -> Option<Ratio> {
    if a.num * b.den + b.num * a.den <= u64::MAX && a.den * b.den <= u64::MAX {
        Some(Ratio {
            num: (a.num * b.den + b.num * a.den) as u64,
            den: (a.den * b.den) as u64,
        })
    } else {
        None
    }
}

} // verus!
