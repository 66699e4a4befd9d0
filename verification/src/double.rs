//! Double-precision numbers held by their bit patterns.
//!
//! The rules of this library compare, clamp and select prices, costs and
//! confidences; none of that rounds. A number is therefore held as the bits of
//! its IEEE 754 binary64 form, and every comparison is decided on those bits.
use vstd::prelude::*;

verus! {

/// The sign bit.
pub const SIGN: u64 = 0x8000_0000_0000_0000;

/// The magnitude of the infinities; greater magnitudes are not numbers.
pub const INF_MAGNITUDE: u64 = 0x7FF0_0000_0000_0000;

/// A binary64 number, by its bit pattern.
#[derive(Clone, Copy, PartialEq, Eq, Structural, Debug)]
pub struct Double {
    pub bits: u64,
}

impl Double {
    /// The pattern without its sign bit. Within one sign it grows with the
    /// absolute value.
    pub open spec fn magnitude(self) -> int {
        if self.bits >= SIGN {
            self.bits - SIGN
        } else {
            self.bits as int
        }
    }

    /// Not a number.
    pub open spec fn nan(self) -> bool {
        self.magnitude() > INF_MAGNITUDE
    }

    /// Neither infinite nor not-a-number.
    pub open spec fn finite(self) -> bool {
        self.magnitude() < INF_MAGNITUDE
    }

    /// An integer that orders the numbers as their values do; both zeros have
    /// the key zero.
    pub open spec fn key(self) -> int {
        if self.bits >= SIGN {
            -self.magnitude()
        } else {
            self.magnitude()
        }
    }

    /// `self < other` as numbers; false where either is not one.
    pub open spec fn below(self, other: Double) -> bool {
        !self.nan() && !other.nan() && self.key() < other.key()
    }

    /// `self <= other` as numbers; false where either is not one.
    pub open spec fn at_most(self, other: Double) -> bool {
        !self.nan() && !other.nan() && self.key() <= other.key()
    }

    /// The key of a total order: all patterns that are not numbers are alike,
    /// and come after every number.
    pub open spec fn rank(self) -> int {
        if self.nan() {
            INF_MAGNITUDE + 1
        } else {
            self.key()
        }
    }

    /// The absolute value.
    pub open spec fn magnitude_of(self) -> Double {
        Double { bits: self.magnitude() as u64 }
    }

    /// The number with its sign turned.
    pub open spec fn negated(self) -> Double {
        Double { bits: (if self.bits >= SIGN { self.bits - SIGN } else { self.bits + SIGN }) as u64 }
    }

    /// The larger of two numbers; the other one where one is not a number.
    pub open spec fn larger_of(self, other: Double) -> Double {
        if self.nan() {
            other
        } else if other.nan() {
            self
        } else if self.key() < other.key() {
            other
        } else {
            self
        }
    }

    /// The smaller of two numbers; the other one where one is not a number.
    pub open spec fn smaller_of(self, other: Double) -> Double {
        if self.nan() {
            other
        } else if other.nan() {
            self
        } else if other.key() < self.key() {
            other
        } else {
            self
        }
    }

    pub fn is_nan(&self) -> (r: bool)
        ensures
            r == self.nan(),
    {
        self.abs().bits > INF_MAGNITUDE
    }

    pub fn is_finite(&self) -> (r: bool)
        ensures
            r == self.finite(),
    {
        self.abs().bits < INF_MAGNITUDE
    }

    pub fn abs(&self) -> (r: Double)
        ensures
            r == self.magnitude_of(),
    {
        if self.bits >= SIGN {
            Double { bits: self.bits - SIGN }
        } else {
            *self
        }
    }

    pub fn neg(&self) -> (r: Double)
        ensures
            r == self.negated(),
    {
        if self.bits >= SIGN {
            Double { bits: self.bits - SIGN }
        } else {
            Double { bits: self.bits + SIGN }
        }
    }

    /// Whether the key of `self` is below that of `other`.
    fn key_below(&self, other: &Double) -> (r: bool)
        ensures
            r == (self.key() < other.key()),
    {
        let a: u64 = self.abs().bits;
        let b: u64 = other.abs().bits;
        if self.bits >= SIGN {
            if other.bits >= SIGN {
                a > b
            } else {
                a > 0 || b > 0
            }
        } else if other.bits >= SIGN {
            false
        } else {
            a < b
        }
    }

    /// `self < other`, as numbers compare.
    pub fn lt(&self, other: &Double) -> (r: bool)
        ensures
            r == self.below(*other),
    {
        !self.is_nan() && !other.is_nan() && self.key_below(other)
    }

    /// `self > other`, as numbers compare.
    pub fn gt(&self, other: &Double) -> (r: bool)
        ensures
            r == other.below(*self),
    {
        other.lt(self)
    }

    /// `self <= other`, as numbers compare.
    pub fn le(&self, other: &Double) -> (r: bool)
        ensures
            r == self.at_most(*other),
    {
        !self.is_nan() && !other.is_nan() && !other.key_below(self)
    }

    /// `self >= other`, as numbers compare.
    pub fn ge(&self, other: &Double) -> (r: bool)
        ensures
            r == other.at_most(*self),
    {
        other.le(self)
    }

    /// Whether `self` comes before `other` in the total order.
    pub fn ranks_below(&self, other: &Double) -> (r: bool)
        ensures
            r == (self.rank() < other.rank()),
    {
        if self.is_nan() {
            false
        } else if other.is_nan() {
            true
        } else {
            self.key_below(other)
        }
    }

    /// The place of the number in the total order.
    pub fn rank_value(&self) -> (r: i128)
        ensures
            r == self.rank(),
    {
        let m: u64 = self.abs().bits;
        if m > INF_MAGNITUDE {
            INF_MAGNITUDE as i128 + 1
        } else if self.bits >= SIGN {
            0 - (m as i128)
        } else {
            m as i128
        }
    }

    pub fn larger(&self, other: &Double) -> (r: Double)
        ensures
            r == self.larger_of(*other),
    {
        if self.is_nan() {
            *other
        } else if other.is_nan() {
            *self
        } else if self.key_below(other) {
            *other
        } else {
            *self
        }
    }

    pub fn smaller(&self, other: &Double) -> (r: Double)
        ensures
            r == self.smaller_of(*other),
    {
        if self.is_nan() {
            *other
        } else if other.is_nan() {
            *self
        } else if other.key_below(self) {
            *other
        } else {
            *self
        }
    }
}

impl Double {
    /// `other` is this number times two to the power of `e`, where that is
    /// exact: zero, the infinities and what is not a number stay, and any other
    /// number and its multiple have a full significand.
    pub open spec fn scales_to(self, other: Double, e: int) -> bool {
        if self.magnitude() == 0 || self.magnitude() >= INF_MAGNITUDE {
            other == self
        } else {
            &&& 0x10_0000_0000_0000 <= self.magnitude()
            &&& 0x10_0000_0000_0000 <= other.magnitude() < INF_MAGNITUDE
            &&& self.bits >= SIGN <==> other.bits >= SIGN
            &&& other.magnitude() == self.magnitude() + e * 0x10_0000_0000_0000
        }
    }
}

/// Scaling two numbers alike keeps their order.
pub proof fn law_scaling_keeps_order(a: Double, b: Double, c: Double, d: Double, e: int)
    requires
        a.scales_to(c, e),
        b.scales_to(d, e),
    ensures
        a.rank() <= b.rank() <==> c.rank() <= d.rank(),
        a.below(b) <==> c.below(d),
        a.finite() <==> c.finite(),
{
}

/// The order of two numbers is that of their bits, turned where both are below
/// zero; a number with its sign bit set comes before one without, but for the
/// two zeros, which are alike. What is not a number is never compared.
pub proof fn law_order_of_the_bits(a: Double, b: Double)
    ensures
        a.nan() || b.nan() ==> !a.below(b) && !a.at_most(b),
        a.below(b) ==> a.at_most(b) && !b.at_most(a),
        !a.nan() && !b.nan() ==> (a.at_most(b) <==> !b.below(a)),
        a.bits < SIGN && b.bits < SIGN && !a.nan() && !b.nan() ==> (a.below(b) <==> a.bits < b.bits),
        a.bits >= SIGN && b.bits >= SIGN && !a.nan() && !b.nan() ==> (a.below(b) <==> a.bits
            > b.bits),
        a.bits >= SIGN && b.bits < SIGN && !a.nan() && !b.nan() ==> (a.below(b) <==> a.bits != SIGN
            || b.bits != 0),
{
}

/// The numbers are told by the eleven bits of their exponent: those whose
/// exponent is not all ones are finite, and with all ones and a fraction there
/// is no number.
pub proof fn law_exponent_tells_the_numbers(a: Double)
    ensures
        a.finite() <==> (a.bits / 0x10_0000_0000_0000) % 0x800 != 0x7FF,
        a.nan() <==> (a.bits / 0x10_0000_0000_0000) % 0x800 == 0x7FF && a.bits
            % 0x10_0000_0000_0000 != 0,
{
}

/// The larger and the smaller of two numbers are the two numbers, in order; of
/// a number and what is none, both are the number.
pub proof fn law_larger_and_smaller(a: Double, b: Double)
    ensures
        !a.nan() && !b.nan() ==> {
            &&& a.at_most(a.larger_of(b)) && b.at_most(a.larger_of(b))
            &&& a.smaller_of(b).at_most(a) && a.smaller_of(b).at_most(b)
        },
        a.larger_of(b) == a || a.larger_of(b) == b,
        a.smaller_of(b) == a || a.smaller_of(b) == b,
        a.nan() ==> a.larger_of(b) == b && a.smaller_of(b) == b,
        !a.nan() && b.nan() ==> a.larger_of(b) == a && a.smaller_of(b) == a,
{
}

/// Turning the sign twice gives the number again, and turns the order of two
/// numbers; the absolute value is the number or the one with its sign turned,
/// and never below zero.
pub proof fn law_turned_signs(a: Double, b: Double)
    ensures
        a.negated().negated() == a,
        a.negated() != a,
        a.below(b) <==> b.negated().below(a.negated()),
        a.magnitude_of() == a || a.magnitude_of() == a.negated(),
        !a.nan() ==> (Double { bits: 0 }).at_most(a.magnitude_of()),
{
}

/// The total order of the numbers is their order, with all that is not a number
/// alike and after every number.
pub proof fn law_total_order(a: Double, b: Double)
    ensures
        !a.nan() && !b.nan() ==> (a.rank() < b.rank() <==> a.below(b)),
        !a.nan() && b.nan() ==> a.rank() < b.rank(),
        a.nan() && b.nan() ==> a.rank() == b.rank(),
{
}

} // verus!
