//! Key codes of the keys that print nothing.
//!
//! The arrows lie in `0x80..=0x83`, so they never collide with a printable ASCII code.

use vstd::prelude::*;

verus! {

/// Escape (`0x1B`, ASCII ESC).
pub const ESCAPE: u8 = 0x1B;

/// Enter / Return (`0x0D`, ASCII CR).
pub const ENTER: u8 = 0x0D;

/// Backspace (`0x08`, ASCII BS).
pub const BACKSPACE: u8 = 0x08;

/// Tab (`0x09`, ASCII HT).
pub const TAB: u8 = 0x09;

/// Arrow up.
pub const ARROW_UP: u8 = 0x80;

/// Arrow down.
pub const ARROW_DOWN: u8 = 0x81;

/// Arrow left.
pub const ARROW_LEFT: u8 = 0x82;

/// Arrow right.
pub const ARROW_RIGHT: u8 = 0x83;

/// No code of a key that prints nothing is that of another one or of a printable character.
pub proof fn law_navigation_codes_never_collide(i: int, j: int)
    requires
        0 <= i < j < 8,
    ensures
        codes()[i] != codes()[j],
        !(0x20 <= codes()[i] <= 0x7E),
        !(0x20 <= codes()[j] <= 0x7E),
{
}

/// The codes listed here.
pub open spec fn codes() -> Seq<u8> {
    seq![ESCAPE, ENTER, BACKSPACE, TAB, ARROW_UP, ARROW_DOWN, ARROW_LEFT, ARROW_RIGHT]
}

} // verus!
