//! The look shared by all widgets: colours, text scale, spacing.

use vstd::prelude::*;

verus! {

/// A soft drop shadow.
#[derive(Debug, Clone, Copy, PartialEq, Eq, Structural)]
pub struct Shadow {
    /// Vertical offset in pixels.
    pub offset_y: i32,
    /// Blur radius in pixels.
    pub blur: u32,
    /// How far the shadow extends beyond its caster.
    pub spread: u32,
    /// Colour; its alpha is the peak opacity.
    pub color: u32,
}

/// The look shared by all widgets.
#[derive(Debug, Clone, Copy, PartialEq, Eq, Structural)]
pub struct Theme {
    /// Background of the canvas.
    pub bg_canvas: u32,
    /// Background of surfaces on the canvas.
    pub bg_surface: u32,
    /// Text colour.
    pub text: u32,
    /// Accent colour.
    pub accent: u32,
    /// Colour of success.
    pub success: u32,
    /// Border colour.
    pub border: u32,
    /// Integer magnification of bitmap text.
    pub text_scale: u32,
    /// Space between a widget's edge and its content, in pixels.
    pub padding: u32,
    /// Space between widgets, in pixels.
    pub spacing: u32,
    /// Corner radius of surfaces, in pixels.
    pub radius: u32,
    /// Shadow of raised surfaces.
    pub elevation: Shadow,
}

} // verus!
