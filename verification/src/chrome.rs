//! Branded window chrome — titlebar and focus ring.
//!
//! Draws the decoration around a window: a rounded dark-material titlebar with traffic-light
//! controls (close = brick, minimize = goldenrod, maximize = sage) and a centred title, plus — when
//! the window is focused — a brick focus accent.

use vstd::prelude::*;

use crate::canvas::Canvas;
use crate::color::Palette;
use crate::geometry::Rect;
use crate::paint::{paint, DrawOp, Effects};
use crate::text::measure_text;
use crate::theme::{Shadow, Theme};

verus! {

/// Diameter of a traffic-light control dot, in pixels.
const CONTROL_D: u32 = 12;

/// Distance between the left edges of two control dots, in pixels.
const CONTROL_STEP: i32 = 20;

/// A window's chrome: its title and focus state.
#[derive(Debug, Clone, PartialEq, Eq)]
pub struct WindowChrome {
    /// The window title shown centred in the titlebar.
    pub title: String,
    /// Whether the window currently has focus (drives the focus accent and title brightness).
    pub focused: bool,
}

/// Where something of size `inner` starts that is centred in `outer`.
pub open spec fn centred(outer: u32, inner: u32) -> int {
    crate::geometry::cut(outer as int, inner as int) / 2
}

/// Whether a titlebar lies where its parts have machine coordinates.
pub open spec fn titlebar_fits(focused: bool, theme: Theme, bar: Rect) -> bool {
    &&& focused ==> 2 * theme.radius <= u32::MAX
    &&& theme.padding <= i32::MAX
    &&& bar.x + theme.padding + 60 <= i32::MAX
    &&& bar.x + bar.w / 2 <= i32::MAX
    &&& bar.y + bar.h / 2 <= i32::MAX
}

/// The focus accent: a band of 2 pixels along the top edge, inset by the corner radius.
pub open spec fn accent_rect(theme: Theme, bar: Rect) -> Rect {
    let inset = if theme.radius < bar.w / 2 {
        theme.radius
    } else {
        bar.w / 2
    };
    Rect {
        x: (bar.x + inset) as i32,
        y: bar.y,
        w: crate::geometry::cut(bar.w as int, 2 * theme.radius) as u32,
        h: 2,
    }
}

/// A control dot: a fully rounded square.
pub open spec fn control(theme: Theme, bar: Rect, k: int, color: u32) -> crate::paint::Ink {
    crate::paint::Ink::Rounded(
        Rect {
            x: (bar.x + theme.padding + 20 * k) as i32,
            y: (bar.y + centred(bar.h, 12)) as i32,
            w: 12,
            h: 12,
        },
        6,
        color,
    )
}

/// What is drawn for a titlebar: the elevated bar, the accent if the window is focused, the three
/// controls, and the centred title.
pub open spec fn chrome_inks(
    title: Seq<char>,
    focused: bool,
    theme: Theme,
    palette: Palette,
    bar: Rect,
) -> Seq<crate::paint::Ink> {
    let wide = crate::text::text_width(title.len(), theme.text_scale);
    let high = crate::text::text_width(1, theme.text_scale);
    seq![
        crate::paint::Ink::Shadow(bar, theme.elevation),
        crate::paint::Ink::Rounded(bar, theme.radius, palette.surface_dark),
    ] + (if focused {
        seq![crate::paint::Ink::Fill(accent_rect(theme, bar), palette.focus_ring)]
    } else {
        Seq::empty()
    }) + seq![
        control(theme, bar, 0, palette.brick_500),
        control(theme, bar, 1, palette.status_warning),
        control(theme, bar, 2, palette.sage_500),
        crate::paint::Ink::Text(
            bar.x + centred(bar.w, wide),
            bar.y + centred(bar.h, high),
            title,
            if focused {
                palette.text_on_dark
            } else {
                palette.text_on_dark_secondary
            },
            theme.text_scale,
        ),
    ]
}

/// Half of what `inner` leaves of `outer`.
fn margin(outer: u32, inner: u32) -> (r: i32)
    ensures
        r == centred(outer, inner),
        0 <= r <= outer / 2,
{
    if outer < inner {
        0
    } else {
        ((outer - inner) / 2) as i32
    }
}

impl WindowChrome {
    /// Creates chrome for a window.
    pub fn new(title: &str, focused: bool) -> (r: Self)
        ensures
            r.title@ == title@,
            r.focused == focused,
    {
        WindowChrome { title: title.to_owned(), focused }
    }

    /// What the titlebar draws in `titlebar_rect`.
    ///
    /// The titlebar is a rounded dark-material surface (a soft shadow gives it lift). Three
    /// traffic-light controls sit at the left; the title is centred, brighter when focused. A
    /// focused window also gets a 2-px focus accent along the top of the bar.
    pub fn plan(&self, theme: &Theme, palette: &Palette, titlebar_rect: &Rect) -> (r: Vec<DrawOp>)
        requires
            titlebar_fits(self.focused, *theme, *titlebar_rect),
        ensures
            crate::paint::inks_of(r@) == chrome_inks(
                self.title@,
                self.focused,
                *theme,
                *palette,
                *titlebar_rect,
            ),
    {
        let bar = *titlebar_rect;
        let mut ops: Vec<DrawOp> = Vec::new();
        ops.push(DrawOp::Shadow { rect: bar, shadow: theme.elevation });
        ops.push(
            DrawOp::RoundedRect { rect: bar, radius: theme.radius, color: palette.surface_dark },
        );
        if self.focused {
            let half: u32 = bar.w / 2;
            let inset: i32 = if theme.radius < half {
                theme.radius as i32
            } else {
                half as i32
            };
            let both: u32 = 2 * theme.radius;
            let accent = Rect {
                x: bar.x + inset,
                y: bar.y,
                w: if bar.w < both {
                    0
                } else {
                    bar.w - both
                },
                h: 2,
            };
            ops.push(DrawOp::FillRect { rect: accent, color: palette.focus_ring });
        }
        let cy: i32 = bar.y + margin(bar.h, CONTROL_D);
        let x0: i32 = bar.x + theme.padding as i32;
        let x1: i32 = x0 + CONTROL_STEP;
        let x2: i32 = x1 + CONTROL_STEP;
        let close = Rect { x: x0, y: cy, w: CONTROL_D, h: CONTROL_D };
        let minimize = Rect { x: x1, y: cy, w: CONTROL_D, h: CONTROL_D };
        let maximize = Rect { x: x2, y: cy, w: CONTROL_D, h: CONTROL_D };
        ops.push(DrawOp::RoundedRect { rect: close, radius: 6, color: palette.brick_500 });
        ops.push(DrawOp::RoundedRect { rect: minimize, radius: 6, color: palette.status_warning });
        ops.push(DrawOp::RoundedRect { rect: maximize, radius: 6, color: palette.sage_500 });
        let color: u32 = if self.focused {
            palette.text_on_dark
        } else {
            palette.text_on_dark_secondary
        };
        let (tw, th) = measure_text(self.title.as_str(), theme.text_scale);
        let tx: i32 = bar.x + margin(bar.w, tw);
        let ty: i32 = bar.y + margin(bar.h, th);
        ops.push(
            DrawOp::Text {
                x: tx,
                y: ty,
                text: self.title.clone(),
                color,
                scale: theme.text_scale,
            },
        );
        assert(crate::paint::inks_of(ops@) =~= chrome_inks(
            self.title@,
            self.focused,
            *theme,
            *palette,
            bar,
        ));
        ops
    }

    /// Renders the titlebar into `titlebar_rect`.
    pub fn render<
        C: Fn(Rect, u32, i32, i32) -> u8,
        G: Fn(Rect, Shadow) -> Rect,
        A: Fn(Rect, Shadow, i32, i32) -> u8,
        B: Fn(u32, u32) -> u32,
    >(
        &self,
        canvas: &mut Canvas<'_>,
        theme: &Theme,
        palette: &Palette,
        titlebar_rect: &Rect,
        fx: &Effects<C, G, A, B>,
    )
        requires
            old(canvas).wf(),
            fx.total(),
            titlebar_fits(self.focused, *theme, *titlebar_rect),
        ensures
            final(canvas).wf(),
            final(canvas).w() == old(canvas).w(),
            final(canvas).h() == old(canvas).h(),
            final(final(canvas).buffer())@ == final(old(canvas).buffer())@,
            fx.all_drawn(
                old(canvas).pix(),
                final(canvas).pix(),
                old(canvas).w(),
                chrome_inks(self.title@, self.focused, *theme, *palette, *titlebar_rect),
            ),
    {
        let ops = self.plan(theme, palette, titlebar_rect);
        paint(canvas, ops.as_slice(), fx);
    }
}

/// What is centred leaves as much on one side as on the other, but for one pixel, and where it does
/// not fit it starts at the edge.
pub proof fn law_centring_leaves_equal_margins(outer: u32, inner: u32)
    ensures
        inner <= outer ==> 0 <= outer - inner - 2 * centred(outer, inner) <= 1,
        inner > outer ==> centred(outer, inner) == 0,
{
}

/// The accent line keeps clear of both round corners, as far from one side as from the other, where
/// the bar is wide enough for them.
pub proof fn law_accent_keeps_clear_of_the_corners(theme: Theme, bar: Rect)
    requires
        2 * theme.radius < bar.w,
        bar.x + bar.w <= i32::MAX,
    ensures
        accent_rect(theme, bar).x - bar.x == theme.radius,
        bar.x + bar.w - (accent_rect(theme, bar).x + accent_rect(theme, bar).w) == theme.radius,
        accent_rect(theme, bar).y == bar.y,
{
}

} // verus!
