//! Fast decimal formatting of fixed-width integers.
//!
//! The library turns any of Rust's fixed-width signed and unsigned integers
//! into its minimal decimal ASCII text: no leading zeros (zero itself is the
//! single byte "0"), a leading '-' for negative values and no sign otherwise.
//! A wide-division kernel supplies the exact quotient and remainder
//! operations that 128-bit formatting needs.
//!
//! The model of the output and the laws that hold of it — round trip, length
//! bound, no leading zeros, sign correctness — live in [`decimal`]; the
//! division kernel and its agreement with the general oracle in [`udiv128`].

pub mod decimal;
pub mod fmt;
pub mod udiv128;

use crate::decimal::signed_repr;
use vstd::prelude::*;

verus! {

/// An integer the formatter can render: every fixed-width signed and
/// unsigned type, each with its own statically selected instantiation of
/// the algorithm.
pub trait Integer: Sized {
    /// The mathematical value of this integer.
    spec fn spec_int(&self) -> int;

    /// Append the minimal decimal text of `self` to `out`; returns how many
    /// bytes were appended.
    fn write(self, out: &mut Vec<u8>) -> (count: usize)
        ensures
            final(out)@ == old(out)@ + signed_repr(self.spec_int()),
            count == signed_repr(self.spec_int()).len(),
    ;
}

/// Append the minimal decimal text of `value` to `out`; returns how many
/// bytes were appended. Appending to the byte sink cannot itself fail.
pub fn write<V: Integer>(out: &mut Vec<u8>, value: V) -> (count: usize)
    ensures
        final(out)@ == old(out)@ + signed_repr(value.spec_int()),
        count == signed_repr(value.spec_int()).len(),
{
    value.write(out)
}

/// Complementing the unsigned image of a negative value counts down from the
/// all-ones word: the result is one below the value's magnitude.
proof fn lemma_mag_u32(x: i32)
    by (bit_vector)
    requires
        x < 0,
    ensures
        !(x as u32) == -1 - (x as int),
{
}

/// The 64-bit form of the same fact.
proof fn lemma_mag_u64(x: i64)
    by (bit_vector)
    requires
        x < 0,
    ensures
        !(x as u64) == -1 - (x as int),
{
}

/// The 128-bit form of the same fact.
proof fn lemma_mag_u128(x: i128)
    by (bit_vector)
    requires
        x < 0,
    ensures
        !(x as u128) == -1 - (x as int),
{
}

impl Integer for u32 {
    open spec fn spec_int(&self) -> int {
        *self as int
    }

    fn write(self, out: &mut Vec<u8>) -> (count: usize) {
        crate::fmt::write_mag_u32(false, self, out)
    }
}

impl Integer for u8 {
    open spec fn spec_int(&self) -> int {
        *self as int
    }

    fn write(self, out: &mut Vec<u8>) -> (count: usize) {
        (self as u32).write(out)
    }
}

impl Integer for u16 {
    open spec fn spec_int(&self) -> int {
        *self as int
    }

    fn write(self, out: &mut Vec<u8>) -> (count: usize) {
        (self as u32).write(out)
    }
}

impl Integer for i32 {
    open spec fn spec_int(&self) -> int {
        *self as int
    }

    fn write(self, out: &mut Vec<u8>) -> (count: usize) {
        let negative = self < 0;
        let mag: u32 = if negative {
            proof {
                lemma_mag_u32(self);
            }
            // the magnitude, taken in the unsigned domain of equal width:
            // complement and add one, correct even for the minimum value
            (!(self as u32)).wrapping_add(1)
        } else {
            self as u32
        };
        crate::fmt::write_mag_u32(negative, mag, out)
    }
}

impl Integer for i8 {
    open spec fn spec_int(&self) -> int {
        *self as int
    }

    fn write(self, out: &mut Vec<u8>) -> (count: usize) {
        (self as i32).write(out)
    }
}

impl Integer for i16 {
    open spec fn spec_int(&self) -> int {
        *self as int
    }

    fn write(self, out: &mut Vec<u8>) -> (count: usize) {
        (self as i32).write(out)
    }
}

impl Integer for u64 {
    open spec fn spec_int(&self) -> int {
        *self as int
    }

    fn write(self, out: &mut Vec<u8>) -> (count: usize) {
        crate::fmt::write_mag_u64(false, self, out)
    }
}

impl Integer for i64 {
    open spec fn spec_int(&self) -> int {
        *self as int
    }

    fn write(self, out: &mut Vec<u8>) -> (count: usize) {
        let negative = self < 0;
        let mag: u64 = if negative {
            proof {
                lemma_mag_u64(self);
            }
            (!(self as u64)).wrapping_add(1)
        } else {
            self as u64
        };
        crate::fmt::write_mag_u64(negative, mag, out)
    }
}

impl Integer for u128 {
    open spec fn spec_int(&self) -> int {
        *self as int
    }

    fn write(self, out: &mut Vec<u8>) -> (count: usize) {
        crate::fmt::write_mag_u128(false, self, out)
    }
}

impl Integer for i128 {
    open spec fn spec_int(&self) -> int {
        *self as int
    }

    fn write(self, out: &mut Vec<u8>) -> (count: usize) {
        let negative = self < 0;
        let mag: u128 = if negative {
            proof {
                lemma_mag_u128(self);
            }
            (!(self as u128)).wrapping_add(1)
        } else {
            self as u128
        };
        crate::fmt::write_mag_u128(negative, mag, out)
    }
}

impl Integer for usize {
    open spec fn spec_int(&self) -> int {
        *self as int
    }

    fn write(self, out: &mut Vec<u8>) -> (count: usize) {
        (self as u64).write(out)
    }
}

impl Integer for isize {
    open spec fn spec_int(&self) -> int {
        *self as int
    }

    fn write(self, out: &mut Vec<u8>) -> (count: usize) {
        (self as i64).write(out)
    }
}

} // verus!
