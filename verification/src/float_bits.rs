//! Floating-point numbers carried as their IEEE 754 bit patterns.
use vstd::prelude::*;

verus! {

/// A binary32 number, by its bit pattern.
#[derive(Clone, Copy, Debug, PartialEq, Eq, Structural)]
pub struct F32 {
    pub bits: u32,
}

/// A binary16 number, by its bit pattern.
#[derive(Clone, Copy, Debug, PartialEq, Eq, Structural)]
pub struct F16 {
    pub bits: u16,
}

impl F32 {
    /// The magnitude: the pattern without its sign bit.
    pub open spec fn magnitude(self) -> int {
        (self.bits as int) % 0x8000_0000
    }

    /// True where the sign bit is set.
    pub open spec fn negative(self) -> bool {
        self.bits >= 0x8000_0000
    }

    /// True of the patterns that are not a number.
    pub open spec fn is_nan(self) -> bool {
        self.magnitude() > 0x7f80_0000
    }

    /// A whole number that orders the patterns as the numbers they stand for are ordered; both
    /// zeros have rank zero.
    pub open spec fn rank(self) -> int {
        if self.negative() {
            -self.magnitude()
        } else {
            self.magnitude()
        }
    }

    /// The IEEE 754 relation `self >= other`: false as soon as one side is not a number.
    pub open spec fn spec_ge(self, other: F32) -> bool {
        !self.is_nan() && !other.is_nan() && self.rank() >= other.rank()
    }

    /// The IEEE 754 relation `self > other`.
    pub open spec fn spec_gt(self, other: F32) -> bool {
        !self.is_nan() && !other.is_nan() && self.rank() > other.rank()
    }

    /// The number with this bit pattern.
    pub fn from_bits(bits: u32) -> (f: F32)
        ensures
            f.bits == bits,
    {
        F32 { bits }
    }

    /// The rank as a machine number.
    pub fn rank_value(self) -> (r: i64)
        ensures
            r == self.rank(),
    {
        if self.bits >= 0x8000_0000 {
            -((self.bits - 0x8000_0000) as i64)
        } else {
            self.bits as i64
        }
    }

    /// Whether the pattern is not a number.
    pub fn not_a_number(self) -> (nan: bool)
        ensures
            nan == self.is_nan(),
    {
        (self.bits % 0x8000_0000) > 0x7f80_0000
    }

    /// Whether `self >= other`.
    pub fn at_least(self, other: F32) -> (ge: bool)
        ensures
            ge == self.spec_ge(other),
    {
        !self.not_a_number() && !other.not_a_number() && self.rank_value() >= other.rank_value()
    }

    /// Whether `self > other`.
    pub fn greater_than(self, other: F32) -> (gt: bool)
        ensures
            gt == self.spec_gt(other),
    {
        !self.not_a_number() && !other.not_a_number() && self.rank_value() > other.rank_value()
    }
}

/// Zero.
pub open spec fn f32_zero() -> F32 {
    F32 { bits: 0 }
}

} // verus!
