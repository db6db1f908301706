//! Design tokens.

use vstd::prelude::*;

verus! {

/// A translucency material: how strongly the backdrop is blurred, and the tint over it.
#[derive(Debug, Clone, Copy, PartialEq, Eq, Structural)]
pub struct Material {
    /// Backdrop blur radius in pixels.
    pub blur: u16,
    /// Tint, `0xAARRGGBB`; its alpha is the strength of the material.
    pub tint: u32,
}

} // verus!
