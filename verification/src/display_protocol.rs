//! Messages between a client and the compositor.
//!
//! A client sends [`ClientRequest`]s and receives [`CompositorEvent`]s over the channel
//! [`DISPLAY_CHANNEL_NAME`], both in the wire encoding.

use vstd::prelude::*;

use crate::display_channel::DisplayInputEvent;

verus! {

/// Registered name of the compositor channel.
pub const DISPLAY_CHANNEL_NAME: &'static str = "nexacore.display.compositor";

/// Upper bound in bytes on an encoded [`ClientRequest`].
pub const MAX_CLIENT_REQUEST_BYTES: usize = 512;

/// Upper bound in bytes on an encoded [`CompositorEvent`].
pub const MAX_COMPOSITOR_EVENT_BYTES: usize = 64;

/// Maximum number of damage rectangles per [`ClientRequest::Commit`].
pub const MAX_DAMAGE_RECTS: usize = 16;

/// An axis-aligned rectangle carried in a message.
#[derive(Debug, Clone, Copy, PartialEq, Eq, Structural)]
pub struct Rect {
    /// Horizontal origin (negative for off-screen rectangles).
    pub x: i32,
    /// Vertical origin (negative for off-screen rectangles).
    pub y: i32,
    /// Width in pixels.
    pub w: u32,
    /// Height in pixels.
    pub h: u32,
}

/// Messages sent from a client to the compositor.
#[derive(Debug, Clone, PartialEq, Eq)]
#[non_exhaustive]
pub enum ClientRequest {
    /// Allocate a surface of the given size; answered by [`CompositorEvent::SurfaceCreated`].
    CreateSurface {
        /// Width of the surface in pixels.
        width: u32,
        /// Height of the surface in pixels.
        height: u32,
    },
    /// New pixel content for a surface.
    Commit {
        /// The surface being updated.
        surface_id: u32,
        /// Dirty rectangles in surface coordinates, at most [`MAX_DAMAGE_RECTS`]. An empty list
        /// means that the whole surface is dirty.
        damage: Vec<Rect>,
    },
    /// Destroy a surface; answered by [`CompositorEvent::Closed`].
    Destroy {
        /// The surface to destroy.
        surface_id: u32,
    },
    /// Move a window to `(x, y)` in screen pixels.
    Move {
        /// The surface whose window moves.
        surface_id: u32,
        /// New X coordinate of the top-left corner.
        x: i32,
        /// New Y coordinate of the top-left corner.
        y: i32,
    },
}

/// Events sent from the compositor to a client.
#[derive(Debug, Clone, PartialEq, Eq)]
#[non_exhaustive]
pub enum CompositorEvent {
    /// A surface was created.
    SurfaceCreated {
        /// The identifier the client uses from now on.
        surface_id: u32,
    },
    /// An input event for this client's window.
    Input(DisplayInputEvent),
    /// A surface was destroyed.
    Closed {
        /// The surface that was destroyed.
        surface_id: u32,
    },
    /// The client is asked to resize a surface.
    Configure {
        /// The surface to resize.
        surface_id: u32,
        /// The new width.
        width: u32,
        /// The new height.
        height: u32,
    },
}

} // verus!
