//! Binary64 numbers as bit patterns.
//!
//! The numeric stages around the library compute in floating point. Where the
//! library carries such a number, or compares two of them, it holds the
//! number's bit pattern: patterns of equal sign are ordered as the numbers
//! they stand for, so comparisons need no arithmetic.
use vstd::prelude::*;

verus! {

/// The bit pattern of a binary64 number.
#[derive(Debug, Clone, Copy, PartialEq, Eq, Hash, Structural)]
pub struct Binary64 {
    /// Sign, exponent and fraction, most significant first.
    pub bits: u64,
}

/// The place value of the sign bit.
pub const SIGN: u64 = 0x8000_0000_0000_0000;

/// The magnitude pattern of infinity; patterns above it are not numbers.
pub const INFINITY: u64 = 0x7FF0_0000_0000_0000;

/// The pattern of one.
pub const ONE: u64 = 0x3FF0_0000_0000_0000;

impl Binary64 {
    /// The pattern without its sign.
    pub open spec fn magnitude(self) -> int {
        if self.bits >= SIGN {
            self.bits - SIGN
        } else {
            self.bits as int
        }
    }

    /// Whether the pattern stands for no number.
    pub open spec fn nan(self) -> bool {
        self.magnitude() > INFINITY
    }

    /// Whether the pattern stands for a finite number.
    pub open spec fn finite(self) -> bool {
        self.magnitude() < INFINITY
    }

    /// An integer that orders numbers: of two patterns that stand for numbers,
    /// the one with the smaller key is the smaller number, and equal keys are
    /// equal numbers (both zeros have the key zero).
    pub open spec fn key(self) -> int {
        if self.bits >= SIGN {
            -self.magnitude()
        } else {
            self.magnitude()
        }
    }

    /// Whether `self` is at most `other`; false where either is no number.
    pub open spec fn at_most(self, other: Binary64) -> bool {
        !self.nan() && !other.nan() && self.key() <= other.key()
    }

    /// Whether `self` is below `other`; false where either is no number.
    pub open spec fn below(self, other: Binary64) -> bool {
        !self.nan() && !other.nan() && self.key() < other.key()
    }

    /// The number with the given bit pattern.
    pub fn from_bits(bits: u64) -> (r: Binary64)
        ensures
            r.bits == bits,
    {
        Binary64 { bits }
    }

    /// The bit pattern.
    pub fn to_bits(self) -> (bits: u64)
        ensures
            bits == self.bits,
    {
        self.bits
    }

    fn size(self) -> (m: u64)
        ensures
            m == self.magnitude(),
    {
        if self.bits >= SIGN {
            self.bits - SIGN
        } else {
            self.bits
        }
    }

    /// Whether the pattern stands for no number.
    pub fn is_nan(self) -> (b: bool)
        ensures
            b == self.nan(),
    {
        self.size() > INFINITY
    }

    /// Whether the pattern stands for a finite number.
    pub fn is_finite(self) -> (b: bool)
        ensures
            b == self.finite(),
    {
        self.size() < INFINITY
    }

    /// Whether `self` is at most `other`, as binary64 comparison has it.
    pub fn le(self, other: Binary64) -> (b: bool)
        ensures
            b == self.at_most(other),
    {
        if self.is_nan() || other.is_nan() {
            return false;
        }
        if self.bits >= SIGN {
            if other.bits >= SIGN {
                other.size() <= self.size()
            } else {
                true
            }
        } else if other.bits >= SIGN {
            self.size() == 0 && other.size() == 0
        } else {
            self.size() <= other.size()
        }
    }

    /// Whether `self` is below `other`, as binary64 comparison has it.
    pub fn lt(self, other: Binary64) -> (b: bool)
        ensures
            b == self.below(other),
    {
        self.le(other) && !other.le(self)
    }
}

/// Binary64 comparison totally preorders the patterns that stand for numbers.
pub proof fn order_is_total(a: Binary64, b: Binary64, c: Binary64)
    requires
        !a.nan(),
        !b.nan(),
        !c.nan(),
    ensures
        a.at_most(b) || b.at_most(a),
        a.at_most(b) && b.at_most(c) ==> a.at_most(c),
        a.below(b) == !b.at_most(a),
{
}

/// Patterns are ordered as their numbers are: positive ones as they stand, negative ones the
/// other way round, and every negative one before every positive one. Both zeros are equal.
/// Patterns above infinity, whatever their sign, are not ordered.
pub proof fn patterns_are_ordered_as_numbers(a: Binary64, b: Binary64)
    requires
        !a.nan(),
        !b.nan(),
    ensures
        a.bits < 0x8000_0000_0000_0000 && b.bits < 0x8000_0000_0000_0000 ==> (a.below(b) <==> a.bits
            < b.bits),
        a.bits >= 0x8000_0000_0000_0000 && b.bits >= 0x8000_0000_0000_0000 ==> (a.below(b)
            <==> a.bits > b.bits),
        a.bits >= 0x8000_0000_0000_0000 && b.bits < 0x8000_0000_0000_0000 ==> (a.below(b)
            <==> a.bits > 0x8000_0000_0000_0000 || b.bits > 0),
        a.bits < 0x8000_0000_0000_0000 && b.bits >= 0x8000_0000_0000_0000 ==> !a.below(b),
        a.at_most(b) <==> !b.below(a),
{
}

/// What stands for no number is neither below nor above anything, nor equal to itself.
pub proof fn no_number_is_unordered(a: Binary64, b: Binary64)
    requires
        a.nan(),
    ensures
        !a.at_most(b),
        !b.at_most(a),
        !a.below(b),
        !b.below(a),
        a.magnitude() > 0x7FF0_0000_0000_0000,
{
}

} // verus!
