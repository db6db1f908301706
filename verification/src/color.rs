//! Brand palette as packed `u32` ARGB values (`0xAARRGGBB`).
//!
//! ```text
//! Bits 31–24: alpha (0xFF = fully opaque, 0x00 = fully transparent)
//! Bits 23–16: red
//! Bits 15–8:  green
//! Bits  7–0:  blue
//! ```

use vstd::prelude::*;

verus! {

/// Petrol `#0F4C5C` — the primary brand hue.
pub const PETROL: u32 = 0xFF0F_4C5C;

/// Charcoal `#1F2421` — text on light surfaces.
pub const CHARCOAL: u32 = 0xFF1F_2421;

/// Muted grey `#6B6B6B` — the AI status bar's "unknown" indicator.
///
/// Deliberately outside the brand palette — neutral enough to convey neither
/// success nor failure.
pub const MUTED: u32 = 0xFF6B_6B6B;

/// The brand colours that the compositor's design tokens define.
#[derive(Debug, Clone, Copy, PartialEq, Eq, Structural)]
pub struct Palette {
    /// Lightest cream: cards.
    pub cream_50: u32,
    /// Cream: canvas background.
    pub cream_300: u32,
    /// Dark charcoal: strong text.
    pub charcoal_900: u32,
    /// Charcoal: text.
    pub charcoal_800: u32,
    /// Mid charcoal: secondary text.
    pub charcoal_500: u32,
    /// Light petrol.
    pub petrol_300: u32,
    /// Petrol: primary accent.
    pub petrol_500: u32,
    /// Dark petrol.
    pub petrol_700: u32,
    /// Sage: success.
    pub sage_500: u32,
    /// Brick: failure.
    pub brick_500: u32,
    /// Goldenrod: warning.
    pub status_warning: u32,
    /// Dark material: panels and title bars.
    pub surface_dark: u32,
    /// Text on dark material.
    pub text_on_dark: u32,
    /// Dimmer text on dark material.
    pub text_on_dark_secondary: u32,
    /// The accent of the focused window.
    pub focus_ring: u32,
}

} // verus!
