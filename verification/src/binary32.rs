//! Single-precision values carried by their IEEE 754 bit patterns.
//!
//! The library never does arithmetic on these values; it only orders and
//! compares them. Two orders matter: the total order of the standard
//! library's `total_cmp` (every bit pattern has its own place, `-0` before
//! `+0`, NaNs at both ends), and the partial order of the `<` and `>=`
//! operators (NaN compares with nothing, `-0` equals `+0`).

use vstd::prelude::*;

verus! {

/// The sign bit of a binary32 pattern.
pub const SIGN_BIT: u32 = 0x8000_0000;

/// The bit pattern of positive infinity.
pub const POS_INF_BITS: u32 = 0x7f80_0000;

/// The bit pattern of negative infinity.
pub const NEG_INF_BITS: u32 = 0xff80_0000;

/// A binary32 value, held as its bit pattern.
#[derive(Clone, Copy, Debug, PartialEq, Eq, Structural)]
pub struct Binary32 {
    pub bits: u32,
}

/// NaN patterns: all exponent bits set and a non-zero fraction, either sign.
pub open spec fn is_nan_bits(b: u32) -> bool {
    (POS_INF_BITS < b && b < SIGN_BIT) || NEG_INF_BITS < b
}

/// Position of a pattern in the total order of `total_cmp`: non-negative
/// patterns keep their value, negative ones are mirrored below zero.
pub open spec fn total_key(b: u32) -> int {
    if b < SIGN_BIT {
        b as int
    } else {
        0x7fff_ffff - b
    }
}

/// Position of a pattern on the number line: as `total_key`, except that
/// `-0` sits with `+0`.
pub open spec fn value_key(b: u32) -> int {
    if b == SIGN_BIT {
        0
    } else {
        total_key(b)
    }
}

/// The `<` operator on binary32 values.
pub open spec fn lt_bits(a: u32, b: u32) -> bool {
    !is_nan_bits(a) && !is_nan_bits(b) && value_key(a) < value_key(b)
}

/// The `<=` operator on binary32 values.
pub open spec fn le_bits(a: u32, b: u32) -> bool {
    !is_nan_bits(a) && !is_nan_bits(b) && value_key(a) <= value_key(b)
}

/// The `>=` operator on binary32 values.
pub open spec fn ge_bits(a: u32, b: u32) -> bool {
    !is_nan_bits(a) && !is_nan_bits(b) && value_key(a) >= value_key(b)
}

/// The `abs` method: the sign bit cleared.
pub open spec fn abs_bits(b: u32) -> u32 {
    if b >= SIGN_BIT {
        (b - SIGN_BIT) as u32
    } else {
        b
    }
}

/// `a` comes no later than `b` in the order of `total_cmp`.
pub open spec fn total_le(a: Binary32, b: Binary32) -> bool {
    total_key(a.bits) <= total_key(b.bits)
}

/// Distinct patterns have distinct places in the total order.
pub proof fn lemma_total_key_injective(a: u32, b: u32)
    ensures
        total_key(a) == total_key(b) ==> a == b,
        -0x8000_0000 <= total_key(a) <= 0x7fff_ffff,
{
}

impl Binary32 {
    /// The total-order key of this value, as `total_cmp` ranks it.
    pub fn total_key(self) -> (k: i64)
        ensures
            k == total_key(self.bits),
    {
        if self.bits < SIGN_BIT {
            self.bits as i64
        } else {
            0x7fff_ffff - (self.bits as i64)
        }
    }

    /// Whether this value is a NaN.
    pub fn is_nan(self) -> (r: bool)
        ensures
            r == is_nan_bits(self.bits),
    {
        (POS_INF_BITS < self.bits && self.bits < SIGN_BIT) || NEG_INF_BITS < self.bits
    }

    fn value_key(self) -> (k: i64)
        ensures
            k == value_key(self.bits),
    {
        if self.bits == SIGN_BIT {
            0
        } else {
            self.total_key()
        }
    }

    /// `self < other`, as the operator compares binary32 values.
    pub fn lt(self, other: Binary32) -> (r: bool)
        ensures
            r == lt_bits(self.bits, other.bits),
    {
        !self.is_nan() && !other.is_nan() && self.value_key() < other.value_key()
    }

    /// `self <= other`, as the operator compares binary32 values.
    pub fn le(self, other: Binary32) -> (r: bool)
        ensures
            r == le_bits(self.bits, other.bits),
    {
        !self.is_nan() && !other.is_nan() && self.value_key() <= other.value_key()
    }

    /// `self >= other`, as the operator compares binary32 values.
    pub fn ge(self, other: Binary32) -> (r: bool)
        ensures
            r == ge_bits(self.bits, other.bits),
    {
        !self.is_nan() && !other.is_nan() && self.value_key() >= other.value_key()
    }

    /// The absolute value: the same pattern with the sign bit cleared.
    pub fn abs(self) -> (r: Binary32)
        ensures
            r.bits == abs_bits(self.bits),
    {
        if self.bits >= SIGN_BIT {
            Binary32 { bits: self.bits - SIGN_BIT }
        } else {
            self
        }
    }
}

} // verus!
