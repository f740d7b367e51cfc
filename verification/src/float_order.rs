//! The order of single-precision floating-point numbers, read off their bits.

use vstd::prelude::*;

verus! {

/// A single-precision floating-point number, given by its IEEE 754 bits. The numbers are computed
/// elsewhere; here they are only compared.
#[derive(Clone, Copy, Debug)]
pub struct F32Bits {
    pub bits: u32,
}

impl F32Bits {
    /// The bits without the sign.
    pub open spec fn magnitude(self) -> int {
        if self.bits >= 0x8000_0000u32 {
            self.bits - 0x8000_0000u32
        } else {
            self.bits as int
        }
    }

    /// Whether this is not a number.
    pub open spec fn is_nan(self) -> bool {
        self.magnitude() > 0x7f80_0000u32
    }

    /// The place of a number in the order of all numbers. Both zeros have the same place.
    pub open spec fn rank(self) -> int {
        if self.bits >= 0x8000_0000u32 {
            -self.magnitude()
        } else {
            self.magnitude()
        }
    }

    /// Whether this is less than `other`. What is not a number is neither less nor greater.
    pub open spec fn less(self, other: F32Bits) -> bool {
        !self.is_nan() && !other.is_nan() && self.rank() < other.rank()
    }

    /// Whether this is less than `other` or equal to it. What is not a number is neither.
    pub open spec fn at_most(self, other: F32Bits) -> bool {
        !self.is_nan() && !other.is_nan() && self.rank() <= other.rank()
    }

    /// The place in the order, if this is a number.
    fn place(self) -> (place: Option<i64>)
        ensures
            place is None <==> self.is_nan(),
            place matches Some(p) ==> p == self.rank(),
    {
        let negative = self.bits >= 0x8000_0000u32;
        let magnitude: u32 = if negative {
            self.bits - 0x8000_0000u32
        } else {
            self.bits
        };
        if magnitude > 0x7f80_0000u32 {
            None
        } else if negative {
            Some(-(magnitude as i64))
        } else {
            Some(magnitude as i64)
        }
    }

    /// `self < other`.
    pub fn is_less(self, other: F32Bits) -> (result: bool)
        ensures
            result == self.less(other),
    {
        match (self.place(), other.place()) {
            (Some(a), Some(b)) => a < b,
            _ => false,
        }
    }

    /// `self <= other`.
    pub fn is_at_most(self, other: F32Bits) -> (result: bool)
        ensures
            result == self.at_most(other),
    {
        match (self.place(), other.place()) {
            (Some(a), Some(b)) => a <= b,
            _ => false,
        }
    }
}

/// Numbers are totally ordered: of two of them, one is at most the other, and the order is
/// transitive.
pub proof fn law_order_is_total(a: F32Bits, b: F32Bits, c: F32Bits)
    requires
        !a.is_nan(),
        !b.is_nan(),
        !c.is_nan(),
    ensures
        a.at_most(b) || b.at_most(a),
        a.at_most(b) <==> !b.less(a),
        a.at_most(b) && b.at_most(c) ==> a.at_most(c),
{
}

/// The order of the bits is that of the numbers. Numbers without a sign bit are ordered as their bits
/// are, numbers with one the other way round; one with it is less than one without it, unless both
/// are zero.
pub proof fn law_order_follows_bits(a: F32Bits, b: F32Bits)
    ensures
        a.bits <= 0x7f80_0000u32 && b.bits <= 0x7f80_0000u32 ==> (a.less(b) <==> a.bits < b.bits) && (a.at_most(b) <==> a.bits
            <= b.bits),
        0x8000_0000u32 <= a.bits <= 0xff80_0000u32 && 0x8000_0000u32 <= b.bits <= 0xff80_0000u32 ==> (a.less(b) <==> b.bits
            < a.bits) && (a.at_most(b) <==> b.bits <= a.bits),
        0x8000_0000u32 <= a.bits <= 0xff80_0000u32 && b.bits <= 0x7f80_0000u32 ==> a.at_most(b) && (a.less(b) <==> !(a.bits
            == 0x8000_0000u32 && b.bits == 0)),
        a.bits <= 0x7f80_0000u32 && 0x8000_0000u32 <= b.bits <= 0xff80_0000u32 ==> !a.less(b) && (a.at_most(b) <==> a.bits == 0
            && b.bits == 0x8000_0000u32),
{
}

/// What is not a number, by its bits, is not less than anything, nor is anything less than it.
pub proof fn law_no_number_has_no_place(a: F32Bits, b: F32Bits)
    requires
        0x7f80_0000u32 < a.bits < 0x8000_0000u32 || 0xff80_0000u32 < a.bits,
    ensures
        !a.less(b) && !b.less(a) && !a.at_most(b) && !b.at_most(a),
{
}

} // verus!
