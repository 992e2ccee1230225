//! IEEE 754 numbers held by their bit patterns.
//!
//! The replicas exchange, store and compare coordinates; they never compute
//! with them. Comparison on the bit patterns is all that is needed here.

use vstd::prelude::*;

verus! {

/// A single-precision number.
#[derive(Debug, Clone, Copy, PartialEq, Eq, Hash, Structural)]
pub struct F32 {
    pub bits: u32,
}

impl F32 {
    /// Whether the pattern is not a number.
    pub open spec fn nan(self) -> bool {
        self.bits % 0x8000_0000 > 0x7f80_0000
    }

    /// An integer that orders the numbers: patterns grow with magnitude, the
    /// top bit is the sign, and both zeros are 0.
    pub open spec fn order(self) -> int {
        if self.bits >= 0x8000_0000 {
            0x8000_0000 - self.bits
        } else {
            self.bits as int
        }
    }

    /// Whether this is a number less than `other`.
    pub open spec fn below(self, other: F32) -> bool {
        !self.nan() && !other.nan() && self.order() < other.order()
    }

    /// Whether this is a number equal to `other`.
    pub open spec fn equals(self, other: F32) -> bool {
        !self.nan() && !other.nan() && self.order() == other.order()
    }

    pub fn is_nan(self) -> (yes: bool)
        ensures
            yes == self.nan(),
    {
        self.bits % 0x8000_0000 > 0x7f80_0000
    }

    fn ordinal(self) -> (n: i64)
        ensures
            n == self.order(),
    {
        if self.bits >= 0x8000_0000 {
            0x8000_0000 - self.bits as i64
        } else {
            self.bits as i64
        }
    }

    /// `self < other`; false where either is not a number.
    pub fn less(self, other: F32) -> (yes: bool)
        ensures
            yes == self.below(other),
    {
        !self.is_nan() && !other.is_nan() && self.ordinal() < other.ordinal()
    }

    /// `self <= other`; false where either is not a number.
    pub fn at_most(self, other: F32) -> (yes: bool)
        ensures
            yes == (self.below(other) || self.equals(other)),
    {
        !self.is_nan() && !other.is_nan() && self.ordinal() <= other.ordinal()
    }

    /// `self == other` as numbers.
    pub fn same(self, other: F32) -> (yes: bool)
        ensures
            yes == self.equals(other),
    {
        !self.is_nan() && !other.is_nan() && self.ordinal() == other.ordinal()
    }

    /// 0.0
    #[verifier::allow_in_spec]
    pub fn zero() -> F32
        returns
            (F32 { bits: 0 }),
    {
        F32 { bits: 0 }
    }

    /// 0.5
    #[verifier::allow_in_spec]
    pub fn half() -> F32
        returns
            (F32 { bits: 0x3f00_0000 }),
    {
        F32 { bits: 0x3f00_0000 }
    }

    /// 1.0
    #[verifier::allow_in_spec]
    pub fn one() -> F32
        returns
            (F32 { bits: 0x3f80_0000 }),
    {
        F32 { bits: 0x3f80_0000 }
    }

    /// Positive infinity.
    #[verifier::allow_in_spec]
    pub fn infinity() -> F32
        returns
            (F32 { bits: 0x7f80_0000 }),
    {
        F32 { bits: 0x7f80_0000 }
    }

    /// Negative infinity.
    #[verifier::allow_in_spec]
    pub fn neg_infinity() -> F32
        returns
            (F32 { bits: 0xff80_0000 }),
    {
        F32 { bits: 0xff80_0000 }
    }
}

/// A double-precision number.
#[derive(Debug, Clone, Copy, PartialEq, Eq, Hash, Structural)]
pub struct F64 {
    pub bits: u64,
}

impl F64 {
    /// Whether the pattern is not a number.
    pub open spec fn nan(self) -> bool {
        self.bits % 0x8000_0000_0000_0000 > 0x7ff0_0000_0000_0000
    }

    /// An integer that orders the numbers, as [`F32::order`].
    pub open spec fn order(self) -> int {
        if self.bits >= 0x8000_0000_0000_0000 {
            0x8000_0000_0000_0000 - self.bits
        } else {
            self.bits as int
        }
    }

    /// Whether this is a number less than `other`.
    pub open spec fn below(self, other: F64) -> bool {
        !self.nan() && !other.nan() && self.order() < other.order()
    }

    pub fn is_nan(self) -> (yes: bool)
        ensures
            yes == self.nan(),
    {
        self.bits % 0x8000_0000_0000_0000 > 0x7ff0_0000_0000_0000
    }

    fn ordinal(self) -> (n: i128)
        ensures
            n == self.order(),
    {
        if self.bits >= 0x8000_0000_0000_0000 {
            0x8000_0000_0000_0000 - self.bits as i128
        } else {
            self.bits as i128
        }
    }

    /// `self < other`; false where either is not a number.
    pub fn less(self, other: F64) -> (yes: bool)
        ensures
            yes == self.below(other),
    {
        !self.is_nan() && !other.is_nan() && self.ordinal() < other.ordinal()
    }
}

/// What is not a number is neither below nor equal to anything. Of two numbers
/// one is below the other or they are equal: patterns without the sign bit grow
/// with the number, those with it fall, and a negative number is below one that
/// is not, but for the two zeros, which are equal.
pub proof fn law_single_numbers_are_ordered(a: F32, b: F32)
    ensures
        a.nan() <==> (a.bits / 0x80_0000) % 256 == 255 && a.bits % 0x80_0000 != 0,
        a.nan() || b.nan() ==> !a.below(b) && !a.equals(b),
        !a.nan() && !b.nan() ==> {
            &&& a.below(b) || b.below(a) || a.equals(b)
            &&& !(a.below(b) && b.below(a)) && !(a.below(b) && a.equals(b))
            &&& a.bits < 0x8000_0000 && b.bits < 0x8000_0000 ==> (a.below(b) <==> a.bits < b.bits)
            &&& a.bits >= 0x8000_0000 && b.bits >= 0x8000_0000 ==> (a.below(b) <==> a.bits > b.bits)
            &&& a.bits >= 0x8000_0000 && b.bits < 0x8000_0000 ==> (a.below(b) <==> a.bits != 0x8000_0000 || b.bits
                != 0)
            &&& a.equals(b) <==> a.bits == b.bits || (a.bits % 0x8000_0000 == 0 && b.bits % 0x8000_0000 == 0)
        },
{
}

/// The same order on double-precision numbers.
pub proof fn law_double_numbers_are_ordered(a: F64, b: F64)
    ensures
        a.nan() <==> (a.bits / 0x10_0000_0000_0000) % 2048 == 2047 && a.bits % 0x10_0000_0000_0000 != 0,
        a.nan() || b.nan() ==> !a.below(b),
        !a.nan() && !b.nan() ==> {
            &&& !(a.below(b) && b.below(a))
            &&& a.bits < 0x8000_0000_0000_0000 && b.bits < 0x8000_0000_0000_0000 ==> (a.below(b) <==> a.bits < b.bits)
            &&& a.bits >= 0x8000_0000_0000_0000 && b.bits >= 0x8000_0000_0000_0000 ==> (a.below(b) <==> a.bits > b.bits)
            &&& a.bits >= 0x8000_0000_0000_0000 && b.bits < 0x8000_0000_0000_0000 ==> (a.below(b) <==> a.bits
                != 0x8000_0000_0000_0000 || b.bits != 0)
            &&& a.bits < 0x8000_0000_0000_0000 && b.bits >= 0x8000_0000_0000_0000 ==> !a.below(b)
        },
{
}

} // verus!
