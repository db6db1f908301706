//! `HiDPI` scale propagation and density-aware asset selection.
//!
//! The compositor derives a scale factor per output, a single-precision number. Widgets lay out in
//! logical pixels and use the factor to pick density-appropriate assets ([`AssetDensity`]) and to
//! map logical [`Size`]s to device pixels ([`Size::scaled`]).

use vstd::prelude::*;

use crate::layout::Size;

verus! {

/// The discrete asset density a renderer selects for a given scale factor.
///
/// Assets are authored at 1×/2×/3× (`"@1x"`/`"@2x"`/`"@3x"`). The toolkit picks the smallest bucket
/// that is still ≥ the output scale, so an asset is at worst downscaled (sharp) rather than upscaled
/// (blurry), capped at 3×.
#[derive(Debug, Clone, Copy, PartialEq, Eq, Structural)]
pub enum AssetDensity {
    /// Standard-density assets (`"@1x"`).
    X1,
    /// Double-density assets (`"@2x"`).
    X2,
    /// Triple-density assets (`"@3x"`).
    X3,
}

/// Whether the single-precision number with the given bits is at most the positive number with the
/// bits `limit`.
///
/// The bits of numbers without a sign are ordered as the numbers are; `0x7F80_0000` is infinity, and
/// what follows it is no number. A number with a sign has the highest bit set.
pub open spec fn at_most(bits: u32, limit: u32) -> bool {
    bits <= limit || 0x8000_0000 <= bits <= 0xFF80_0000
}

impl AssetDensity {
    /// The density bucket for a scale factor: the smallest that is at least the factor, or the
    /// largest.
    pub open spec fn bucket(scale_bits: u32) -> AssetDensity {
        if at_most(scale_bits, 0x3F80_0000) {
            AssetDensity::X1
        } else if at_most(scale_bits, 0x4000_0000) {
            AssetDensity::X2
        } else {
            AssetDensity::X3
        }
    }

    /// The density multiplier.
    pub open spec fn multiplier(self) -> u32 {
        match self {
            AssetDensity::X1 => 1,
            AssetDensity::X2 => 2,
            AssetDensity::X3 => 3,
        }
    }

    /// Select the density bucket for the scale factor with the bits `scale_bits`: the factor rounded
    /// up, capped at 3× (so `1.0 → X1`, `1.25/1.5/2.0 → X2`, `> 2.0 → X3`).
    pub fn for_scale(scale_bits: u32) -> (r: Self)
        ensures
            r == AssetDensity::bucket(scale_bits),
    {
        let signed = 0x8000_0000 <= scale_bits && scale_bits <= 0xFF80_0000;
        if signed || scale_bits <= 0x3F80_0000 {
            AssetDensity::X1
        } else if scale_bits <= 0x4000_0000 {
            AssetDensity::X2
        } else {
            AssetDensity::X3
        }
    }

    /// The integer density multiplier (`1`, `2`, or `3`).
    pub fn factor(self) -> (r: u32)
        ensures
            r == self.multiplier(),
    {
        match self {
            AssetDensity::X1 => 1,
            AssetDensity::X2 => 2,
            AssetDensity::X3 => 3,
        }
    }

    /// The conventional asset-name suffix (`"@1x"` / `"@2x"` / `"@3x"`).
    pub fn suffix(self) -> (r: &'static str)
        ensures
            r@ == (match self {
                AssetDensity::X1 => "@1x"@,
                AssetDensity::X2 => "@2x"@,
                AssetDensity::X3 => "@3x"@,
            }),
    {
        match self {
            AssetDensity::X1 => "@1x",
            AssetDensity::X2 => "@2x",
            AssetDensity::X3 => "@3x",
        }
    }
}

/// A larger scale factor never selects a smaller density.
pub proof fn law_density_grows_with_the_scale(a: u32, b: u32)
    requires
        a <= b <= 0x7F80_0000,
    ensures
        AssetDensity::bucket(a).multiplier() <= AssetDensity::bucket(b).multiplier(),
{
}

impl Size {
    /// Map this logical size to device pixels. `scale_length` is the compositor's mapping of a
    /// logical length, rounded to the nearest whole device pixel.
    pub fn scaled<F: Fn(u32) -> u32>(self, scale_length: &F) -> (r: Self)
        requires
            forall|n: u32| call_requires(*scale_length, (n,)),
        ensures
            call_ensures(*scale_length, (self.w,), r.w),
            call_ensures(*scale_length, (self.h,), r.h),
    {
        let w: u32 = scale_length(self.w);
        let h: u32 = scale_length(self.h);
        Size { w, h }
    }
}

} // verus!
