//! Lane-wise single-precision arithmetic on eight lanes at once.
//!
//! Each lane is carried as the bit pattern of an IEEE binary32 value; the
//! arithmetic itself is done by `ultraviolet::f32x8`, ultraviolet's
//! re-export of `wide::f32x8` (wide 0.7).
//!
//! Which NaN an operation yields differs between targets, so the names
//! below stand for a result only where that result is not a NaN.
use vstd::prelude::*;

verus! {

/// Bit pattern of the IEEE binary32 sum of two bit patterns, where neither
/// is a NaN and they are not infinities of opposite signs.
pub uninterp spec fn lane_sum(a: u32, b: u32) -> u32;

/// Bit pattern of the IEEE binary32 product of two bit patterns, where
/// neither is a NaN and it is not a zero times an infinity.
pub uninterp spec fn lane_product(a: u32, b: u32) -> u32;

/// The bit pattern of `+0.0`.
pub const ZERO_BITS: u32 = 0;

/// The bit pattern of `-0.0`.
pub const NEG_ZERO_BITS: u32 = 0x8000_0000;

/// Whether a bit pattern encodes a finite value (its exponent is not all ones).
pub open spec fn is_finite_bits(a: u32) -> bool {
    a & 0x7f80_0000u32 != 0x7f80_0000u32
}

/// Whether a bit pattern encodes a NaN: exponent all ones, fraction not zero.
pub open spec fn is_nan_bits(a: u32) -> bool {
    a & 0x7f80_0000u32 == 0x7f80_0000u32 && a & 0x007f_ffffu32 != 0
}

/// Whether a bit pattern encodes an infinity of either sign.
pub open spec fn is_inf_bits(a: u32) -> bool {
    a & 0x7fff_ffffu32 == 0x7f80_0000u32
}

/// Whether a bit pattern encodes a zero of either sign.
pub open spec fn is_zero_bits(a: u32) -> bool {
    a & 0x7fff_ffffu32 == 0
}

/// The sum of `a` and `b` is not a NaN.
pub open spec fn sum_defined(a: u32, b: u32) -> bool {
    !is_nan_bits(a) && !is_nan_bits(b) && !(is_inf_bits(a) && is_inf_bits(b) && a != b)
}

/// The product of `a` and `b` is not a NaN.
pub open spec fn product_defined(a: u32, b: u32) -> bool {
    !is_nan_bits(a) && !is_nan_bits(b) && !(is_zero_bits(a) && is_inf_bits(b)) && !(is_inf_bits(a)
        && is_zero_bits(b))
}

/// Relies on `Add` for `ultraviolet::f32x8` (`wide::f32x8` 0.7): lane-wise
/// binary32 addition, the lanes moved in and out by `bytemuck::cast`. A
/// lane is the IEEE sum where that is not a NaN, and a NaN otherwise; under
/// round-to-nearest, `+0.0` plus a zero of either sign is `+0.0`.
#[verifier::external_body]
pub(crate) fn add_lanes(a: [u32; 8], b: [u32; 8]) -> (r: [u32; 8])
    ensures
        forall|i: int|
            0 <= i < 8 && sum_defined(a@[i], b@[i]) ==> #[trigger] r@[i] == lane_sum(a@[i], b@[i]),
        forall|i: int| 0 <= i < 8 && !sum_defined(a@[i], b@[i]) ==> is_nan_bits(#[trigger] r@[i]),
        forall|i: int|
            0 <= i < 8 && a@[i] == ZERO_BITS && (b@[i] == ZERO_BITS || b@[i] == NEG_ZERO_BITS)
                ==> #[trigger] r@[i] == ZERO_BITS,
{
    let x: ultraviolet::f32x8 = bytemuck::cast(a);
    let y: ultraviolet::f32x8 = bytemuck::cast(b);
    bytemuck::cast(x + y)
}

/// Relies on `Mul` for `ultraviolet::f32x8` (`wide::f32x8` 0.7): lane-wise
/// binary32 multiplication, the lanes moved in and out by
/// `bytemuck::cast`. A lane is the IEEE product where that is not a NaN,
/// and a NaN otherwise; a zero times a finite value is a zero of either
/// sign.
#[verifier::external_body]
pub(crate) fn mul_lanes(a: [u32; 8], b: [u32; 8]) -> (r: [u32; 8])
    ensures
        forall|i: int|
            0 <= i < 8 && product_defined(a@[i], b@[i]) ==> #[trigger] r@[i] == lane_product(a@[i], b@[i]),
        forall|i: int| 0 <= i < 8 && !product_defined(a@[i], b@[i]) ==> is_nan_bits(#[trigger] r@[i]),
        forall|i: int|
            0 <= i < 8 && (a@[i] == ZERO_BITS || a@[i] == NEG_ZERO_BITS) && is_finite_bits(b@[i])
                ==> (#[trigger] r@[i] == ZERO_BITS || r@[i] == NEG_ZERO_BITS),
{
    let x: ultraviolet::f32x8 = bytemuck::cast(a);
    let y: ultraviolet::f32x8 = bytemuck::cast(b);
    bytemuck::cast(x * y)
}

} // verus!
