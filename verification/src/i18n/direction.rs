//! Writing direction and right-to-left layout.
//!
//! Horizontal edges are logical (leading / trailing) rather than physical (left /
//! right), so that one body of layout code drives both directions.

use vstd::prelude::*;

use crate::i18n::format::primary_subtag;
use crate::strings::str_eq;

verus! {

/// The writing direction of a user interface.
#[derive(Debug, Clone, Copy, PartialEq, Eq, Structural)]
pub enum LayoutDirection {
    /// Left-to-right (Latin, Cyrillic, CJK, …).
    Ltr,
    /// Right-to-left (Arabic, Hebrew, Persian, …).
    Rtl,
}

/// A physical horizontal side.
#[derive(Debug, Clone, Copy, PartialEq, Eq, Structural)]
pub enum Side {
    /// The left side.
    Left,
    /// The right side.
    Right,
}

/// A logical (writing-direction-relative) text alignment.
#[derive(Debug, Clone, Copy, PartialEq, Eq, Structural)]
pub enum TextAlign {
    /// The leading edge (left in LTR, right in RTL).
    Start,
    /// Centred.
    Center,
    /// The trailing edge (right in LTR, left in RTL).
    End,
}

/// A physical (resolved) text alignment.
#[derive(Debug, Clone, Copy, PartialEq, Eq, Structural)]
pub enum PhysicalAlign {
    /// Left-aligned.
    Left,
    /// Centred.
    Center,
    /// Right-aligned.
    Right,
}

/// The languages that are written from right to left.
pub open spec fn is_rtl_language(tag: Seq<char>) -> bool {
    tag == "ar"@ || tag == "he"@ || tag == "iw"@ || tag == "fa"@ || tag == "ur"@ || tag == "yi"@
        || tag == "ps"@ || tag == "dv"@
}

/// The other side.
pub open spec fn opposite(s: Side) -> Side {
    match s {
        Side::Left => Side::Right,
        Side::Right => Side::Left,
    }
}

/// The alignment to a side.
pub open spec fn align_to(s: Side) -> PhysicalAlign {
    match s {
        Side::Left => PhysicalAlign::Left,
        Side::Right => PhysicalAlign::Right,
    }
}

/// `a - b`, but not below zero.
pub open spec fn clamped_sub(a: int, b: int) -> int {
    if a < b {
        0
    } else {
        a - b
    }
}

impl LayoutDirection {
    /// The side on which a line starts.
    pub open spec fn leading(self) -> Side {
        match self {
            LayoutDirection::Ltr => Side::Left,
            LayoutDirection::Rtl => Side::Right,
        }
    }

    /// The physical position of a child at logical offset `x`.
    pub open spec fn placed(self, x: int, child_w: int, container_w: int) -> int {
        match self {
            LayoutDirection::Ltr => x,
            LayoutDirection::Rtl => clamped_sub(clamped_sub(container_w, x), child_w),
        }
    }

    /// The layout direction for `locale`.
    ///
    /// Arabic (`ar`), Hebrew (`he`/`iw`), Persian (`fa`), Urdu (`ur`), Yiddish
    /// (`yi`), Pashto (`ps`) and Dhivehi (`dv`) are right-to-left; every other
    /// locale is left-to-right.
    pub fn from_locale(locale: &str) -> (r: Self)
        ensures
            r == (if is_rtl_language(crate::i18n::format::language(locale@)) {
                LayoutDirection::Rtl
            } else {
                LayoutDirection::Ltr
            }),
    {
        let t = primary_subtag(locale);
        if str_eq(t, "ar") || str_eq(t, "he") || str_eq(t, "iw") || str_eq(t, "fa") || str_eq(
            t,
            "ur",
        ) || str_eq(t, "yi") || str_eq(t, "ps") || str_eq(t, "dv") {
            LayoutDirection::Rtl
        } else {
            LayoutDirection::Ltr
        }
    }

    /// Whether the direction is right-to-left.
    pub fn is_rtl(self) -> (r: bool)
        ensures
            r == (self == LayoutDirection::Rtl),
    {
        match self {
            LayoutDirection::Rtl => true,
            LayoutDirection::Ltr => false,
        }
    }

    /// The physical side of the leading (start) edge.
    pub fn leading_side(self) -> (r: Side)
        ensures
            r == self.leading(),
    {
        match self {
            LayoutDirection::Ltr => Side::Left,
            LayoutDirection::Rtl => Side::Right,
        }
    }

    /// The physical side of the trailing (end) edge.
    pub fn trailing_side(self) -> (r: Side)
        ensures
            r == opposite(self.leading()),
    {
        match self {
            LayoutDirection::Ltr => Side::Right,
            LayoutDirection::Rtl => Side::Left,
        }
    }

    /// Resolves the physical x of a child laid out at logical offset `x` (from the
    /// leading edge), given the child and container widths.
    ///
    /// Left-to-right returns `x` unchanged; right-to-left mirrors it to
    /// `container_w - x - child_w`, where a child that overflows the container
    /// clamps to `0`.
    pub fn resolve_x(self, x: u32, child_w: u32, container_w: u32) -> (r: u32)
        ensures
            r == self.placed(x as int, child_w as int, container_w as int),
    {
        match self {
            LayoutDirection::Ltr => x,
            LayoutDirection::Rtl => container_w.saturating_sub(x).saturating_sub(child_w),
        }
    }

    /// Resolves a logical text alignment to a physical one.
    ///
    /// `Start` maps to the leading side, `End` to the trailing side, and `Center`
    /// stays centred.
    pub fn resolve_align(self, align: TextAlign) -> (r: PhysicalAlign)
        ensures
            r == (match align {
                TextAlign::Start => align_to(self.leading()),
                TextAlign::Center => PhysicalAlign::Center,
                TextAlign::End => align_to(opposite(self.leading())),
            }),
    {
        match align {
            TextAlign::Center => PhysicalAlign::Center,
            TextAlign::Start => match self {
                LayoutDirection::Ltr => PhysicalAlign::Left,
                LayoutDirection::Rtl => PhysicalAlign::Right,
            },
            TextAlign::End => match self {
                LayoutDirection::Ltr => PhysicalAlign::Right,
                LayoutDirection::Rtl => PhysicalAlign::Left,
            },
        }
    }
}

/// A child that fits its container stays inside it, and mirroring it twice puts it back.
pub proof fn law_mirroring_is_an_involution(
    dir: LayoutDirection,
    x: u32,
    child_w: u32,
    container_w: u32,
)
    requires
        x + child_w <= container_w,
    ensures
        ({
            let once = dir.placed(x as int, child_w as int, container_w as int);
            &&& 0 <= once
            &&& once + child_w <= container_w
            &&& dir.placed(once, child_w as int, container_w as int) == x
        }),
{
}

/// What is placed from right to left is as far from the right side as it would be from the left
/// side otherwise, where it fits.
pub proof fn law_distances_are_kept_from_the_leading_side(x: int, child_w: int, container_w: int)
    requires
        0 <= x,
        0 <= child_w,
        x + child_w <= container_w,
    ensures
        LayoutDirection::Ltr.placed(x, child_w, container_w) == x,
        container_w - (LayoutDirection::Rtl.placed(x, child_w, container_w) + child_w) == x,
{
}

} // verus!
