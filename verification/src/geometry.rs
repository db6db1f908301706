//! Rectangles on the pixel grid.

use vstd::prelude::*;

verus! {

/// A rectangle: its top-left corner and its size in pixels.
#[derive(Debug, Clone, Copy, PartialEq, Eq, Hash, Structural)]
pub struct Rect {
    /// Left edge.
    pub x: i32,
    /// Top edge.
    pub y: i32,
    /// Width in pixels.
    pub w: u32,
    /// Height in pixels.
    pub h: u32,
}

impl Rect {
    /// Whether a pixel lies inside.
    pub open spec fn has(self, x: int, y: int) -> bool {
        self.x <= x < self.x + self.w && self.y <= y < self.y + self.h
    }

    /// Whether the rectangle holds no pixel.
    pub fn is_empty(&self) -> (r: bool)
        ensures
            r == (self.w == 0 || self.h == 0),
    {
        self.w == 0 || self.h == 0
    }
}

/// `a - b`, or 0.
pub open spec fn cut(a: int, b: int) -> int {
    if a < b {
        0
    } else {
        a - b
    }
}

} // verus!
