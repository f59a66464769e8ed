//! Validated DPI scale values.

use vstd::prelude::*;

verus! {

/// The bit pattern of `+infinity` in the 32-bit binary floating-point
/// format. Bit patterns below it (and above zero) with a clear sign bit
/// are exactly the positive finite values.
pub const F32_INFINITY_BITS: u32 = 0x7F80_0000;

/// A validated DPI scale value, fully supporting equality, ordering, and
/// hashing.
///
/// The value is stored as the bit pattern of a 32-bit floating-point
/// number and compared by that pattern; construction accepts only the
/// patterns of positive finite values, so distinct patterns are distinct
/// scales and every scale equals itself.
#[derive(Clone, Copy, Debug, PartialEq, Eq, PartialOrd, Ord, Hash, Structural)]
pub struct DpiScale {
    bits: u32,
}

/// The error returned when a DPI scale is constructed from a value that
/// is not positive and finite.
#[derive(Clone, Copy, Debug, PartialEq, Eq, Structural)]
pub enum DpiScaleError {
    OutOfRange,
}

/// Whether `bits` is the pattern of a positive finite 32-bit
/// floating-point value: the sign bit clear, not a zero, and below the
/// pattern of `+infinity`.
pub open spec fn dpi_scale_valid(bits: u32) -> bool {
    1 <= bits < F32_INFINITY_BITS
}

impl DpiScale {
    /// The stored bit pattern.
    pub closed spec fn spec_bits(self) -> u32 {
        self.bits
    }

    /// Scales are identified by their bit pattern.
    pub proof fn lemma_bits_injective(a: DpiScale, b: DpiScale)
        ensures
            a == b <==> a.spec_bits() == b.spec_bits(),
    {
    }

    /// Validate `bits` as the pattern of a positive finite scale value.
    ///
    /// Returns `Ok` exactly when `bits` is positive and finite, that is,
    /// neither a zero, a negative value, an infinity, nor a not-a-number
    /// pattern.
    pub fn new(bits: u32) -> (r: Result<DpiScale, DpiScaleError>)
        ensures
            dpi_scale_valid(bits) <==> r is Ok,
            r matches Ok(s) ==> s.spec_bits() == bits,
            !dpi_scale_valid(bits) ==> r == Result::<DpiScale, DpiScaleError>::Err(
                DpiScaleError::OutOfRange,
            ),
    {
        if 1 <= bits && bits < F32_INFINITY_BITS {
            Ok(DpiScale { bits })
        } else {
            Err(DpiScaleError::OutOfRange)
        }
    }

    /// The bit pattern of the scale value.
    pub fn value_bits(&self) -> (r: u32)
        ensures
            r == self.spec_bits(),
    {
        self.bits
    }
}

} // verus!
