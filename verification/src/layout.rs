//! Layout primitives: [`Size`] and [`Direction`].

use vstd::prelude::*;

verus! {

/// A two-dimensional pixel size.
#[derive(Debug, Clone, Copy, PartialEq, Eq, Structural)]
pub struct Size {
    /// Width in pixels.
    pub w: u32,
    /// Height in pixels.
    pub h: u32,
}

/// The stacking axis for a [`crate::widget::Widget::Container`].
///
/// `Vertical` stacks children top-to-bottom; `Horizontal` stacks them left-to-right.
#[derive(Debug, Clone, Copy, PartialEq, Eq, Structural)]
pub enum Direction {
    /// Stack children from top to bottom.
    Vertical,
    /// Stack children from left to right.
    Horizontal,
}

} // verus!
