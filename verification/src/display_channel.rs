//! Input events delivered from the kernel to the compositor.

use vstd::prelude::*;

pub mod keycode;

verus! {

/// Name of the display-input service channel.
pub const CHANNEL_NAME: &'static str = "nexacore.display.input";

/// Upper bound in bytes on an encoded [`DisplayInputEvent`].
pub const MAX_EVENT_BYTES: usize = 32;

/// One input event delivered over the display-input channel.
#[derive(Debug, Clone, Copy, PartialEq, Eq, Hash, Structural)]
#[non_exhaustive]
pub enum DisplayInputEvent {
    /// A keyboard key transition.
    Key {
        /// Logical key code. Printable keys carry their ASCII byte; the others are listed in
        /// [`keycode`].
        code: u8,
        /// `true` on press, `false` on release.
        pressed: bool,
    },
    /// A pointer update with absolute screen coordinates.
    Pointer {
        /// Absolute X in pixels, `0..screen_width`.
        x: u32,
        /// Absolute Y in pixels, `0..screen_height`.
        y: u32,
        /// Button mask: bit 0 = left, bit 1 = right, bit 2 = middle.
        buttons: u8,
    },
}

} // verus!
