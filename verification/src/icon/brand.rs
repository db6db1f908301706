//! The brand icon set: geometric, over a view box of 24 units.

use vstd::prelude::*;

use crate::ai::FloatBits;
use crate::icon::IconDef;

verus! {

/// The bits of `24.0`, the side of every view box.
pub const SIDE_BITS: u32 = 0x41C0_0000;

/// The `plus` icon.
pub open spec fn plus_icon() -> IconDef {
    IconDef {
        name: "plus",
        viewbox: FloatBits(SIDE_BITS),
        regular: "M11 4 H13 V11 H20 V13 H13 V20 H11 V13 H4 V11 H11 Z",
        bold: "M10 4 H14 V10 H20 V14 H14 V20 H10 V14 H4 V10 H10 Z",
    }
}

/// The `square` icon.
pub open spec fn square_icon() -> IconDef {
    IconDef {
        name: "square",
        viewbox: FloatBits(SIDE_BITS),
        regular: "M5 5 H19 V19 H5 Z",
        bold: "M3 3 H21 V21 H3 Z",
    }
}

/// The `check` icon.
pub open spec fn check_icon() -> IconDef {
    IconDef {
        name: "check",
        viewbox: FloatBits(SIDE_BITS),
        regular: "M4 13 L9 18 L20 6 L18 4 L9 14 L6 11 Z",
        bold: "M3 13 L9 19 L21 6 L18 3 L9 14 L6 10 Z",
    }
}

/// `plus`: add / new.
pub fn plus() -> (r: IconDef)
    ensures
        r == plus_icon(),
{
    IconDef {
        name: "plus",
        viewbox: FloatBits(SIDE_BITS),
        regular: "M11 4 H13 V11 H20 V13 H13 V20 H11 V13 H4 V11 H11 Z",
        bold: "M10 4 H14 V10 H20 V14 H14 V20 H10 V14 H4 V10 H10 Z",
    }
}

/// `square`: placeholder / container glyph.
pub fn square() -> (r: IconDef)
    ensures
        r == square_icon(),
{
    IconDef {
        name: "square",
        viewbox: FloatBits(SIDE_BITS),
        regular: "M5 5 H19 V19 H5 Z",
        bold: "M3 3 H21 V21 H3 Z",
    }
}

/// `check`: confirmation mark.
pub fn check() -> (r: IconDef)
    ensures
        r == check_icon(),
{
    IconDef {
        name: "check",
        viewbox: FloatBits(SIDE_BITS),
        regular: "M4 13 L9 18 L20 6 L18 4 L9 14 L6 11 Z",
        bold: "M3 13 L9 19 L21 6 L18 3 L9 14 L6 10 Z",
    }
}

/// All brand icons, in name order.
pub fn all() -> (r: Vec<IconDef>)
    ensures
        r@ == seq![check_icon(), plus_icon(), square_icon()],
{
    let mut v: Vec<IconDef> = Vec::new();
    v.push(check());
    v.push(plus());
    v.push(square());
    v
}

} // verus!
