//! AI-backend status bar widget: an always-visible, full-width strip that shows the
//! live AI backend state as a coloured box and a label.

use vstd::prelude::*;

use crate::ai::{BackendKind, BackendStatusEvent};
use crate::canvas::Canvas;
use crate::color::{Palette, MUTED};
use crate::geometry::Rect;
use crate::text::draw_text;
use crate::theme::Theme;

verus! {

/// Host of the inference server used by the runtime image.
pub const OLLAMA_HOST: &'static str = "127.0.0.1";

/// Display name for the AI model shown in the UI.
pub const OLLAMA_MODEL: &'static str = "NexyAI";

/// The AI backend the [`StatusBar`] last observed.
#[derive(Debug, Clone, Copy, PartialEq, Eq, Structural)]
pub enum BackendState {
    /// The remote GPU is healthy and serving requests.
    Gpu,
    /// The backend is degraded — either the local CPU is active, or the remote GPU
    /// reported itself degraded.
    CpuDegraded,
    /// No status event has been received yet.
    Unknown,
}

/// The state that an event announces: the GPU unless it is degraded or the CPU serves.
pub open spec fn announced(event: BackendStatusEvent) -> BackendState {
    if event.backend == BackendKind::RemoteGpu && !event.degraded {
        BackendState::Gpu
    } else {
        BackendState::CpuDegraded
    }
}

impl BackendState {
    /// The label of the state.
    pub open spec fn text(self) -> Seq<char> {
        match self {
            BackendState::Gpu => "AI: GPU  127.0.0.1  NexyAI"@,
            BackendState::CpuDegraded => "AI: CPU (degraded - Ollama unreachable)"@,
            BackendState::Unknown => "AI: status unavailable"@,
        }
    }

    /// The colour of the state.
    pub open spec fn color(self, p: Palette) -> u32 {
        match self {
            BackendState::Gpu => p.sage_500,
            BackendState::CpuDegraded => p.brick_500,
            BackendState::Unknown => MUTED,
        }
    }
}

/// Where the parts of a bar stand: the indicator box and the top-left corner of the label.
pub struct BarLayout {
    /// The indicator box.
    pub box_x: int,
    /// Its top edge.
    pub box_y: int,
    /// Its side.
    pub side: int,
    /// Left edge of the label.
    pub text_x: int,
    /// Top edge of the label.
    pub text_y: int,
}

/// Where the parts of a bar stand: a square box, 8 pixels less high than the bar and centred in
/// it, one padding from the left; the label one padding behind it, centred too.
pub open spec fn bar_layout(rect: Rect, theme: Theme) -> BarLayout {
    let side = if rect.h <= 9 {
        1
    } else {
        rect.h - 8
    };
    let text_h = crate::text::saturated(8 * theme.text_scale as int) as int;
    BarLayout {
        box_x: rect.x + theme.padding,
        box_y: rect.y + crate::geometry::cut(rect.h as int, side) / 2,
        side,
        text_x: rect.x + theme.padding + side + theme.padding,
        text_y: rect.y + crate::geometry::cut(rect.h as int, text_h) / 2,
    }
}

/// An always-visible system status bar showing the live AI backend.
pub struct StatusBar {
    /// Current backend state (drives indicator colour and label).
    state: BackendState,
    /// The screen rectangle this bar occupies.
    rect: Rect,
}

impl Default for StatusBar {
    fn default() -> (r: Self)
        ensures
            r.shown() == BackendState::Unknown,
            r.place() == (Rect { x: 0, y: 0, w: 0, h: 0 }),
    {
        StatusBar::new()
    }
}

impl StatusBar {
    /// The state shown.
    pub closed spec fn shown(&self) -> BackendState {
        self.state
    }

    /// The rectangle occupied.
    pub closed spec fn place(&self) -> Rect {
        self.rect
    }

    /// Creates a new [`StatusBar`] with [`BackendState::Unknown`] and a zero-sized
    /// rect at the origin.
    pub fn new() -> (r: Self)
        ensures
            r.shown() == BackendState::Unknown,
            r.place() == (Rect { x: 0, y: 0, w: 0, h: 0 }),
    {
        StatusBar { state: BackendState::Unknown, rect: Rect { x: 0, y: 0, w: 0, h: 0 } }
    }

    /// Returns the current [`BackendState`].
    pub fn state(&self) -> (r: BackendState)
        ensures
            r == self.shown(),
    {
        self.state
    }

    /// Updates the bar state from a backend status event.
    ///
    /// | `event.backend` | `event.degraded` | New [`BackendState`] |
    /// |-----------------|-----------------|---------------------|
    /// | `RemoteGpu` | `false` | [`BackendState::Gpu`] |
    /// | anything else | | [`BackendState::CpuDegraded`] |
    ///
    /// The `healthy` field is not used for the visual state.
    pub fn apply(&mut self, event: BackendStatusEvent)
        ensures
            final(self).shown() == announced(event),
            final(self).place() == old(self).place(),
    {
        self.state = state_from_event(event);
    }

    /// Lays the bar out within `bounds`, reserving the full rectangle.
    pub fn layout(&mut self, bounds: Rect)
        ensures
            final(self).place() == bounds,
            final(self).shown() == old(self).shown(),
    {
        self.rect = bounds;
    }

    /// Returns the bar's current laid-out rectangle.
    pub fn rect(&self) -> (r: Rect)
        ensures
            r == self.place(),
    {
        self.rect
    }

    /// Renders the status bar into `canvas`: the background, then the indicator box,
    /// then the label.
    ///
    /// The bar has to lie where its parts have `i32` coordinates.
    pub fn render(&self, canvas: &mut Canvas<'_>, theme: &Theme, palette: &Palette)
        requires
            old(canvas).wf(),
            bar_layout(self.place(), *theme).text_x <= i32::MAX,
            bar_layout(self.place(), *theme).text_y <= i32::MAX,
            bar_layout(self.place(), *theme).box_y <= i32::MAX,
        ensures
            final(canvas).wf(),
            final(canvas).w() == old(canvas).w(),
            final(canvas).h() == old(canvas).h(),
            final(final(canvas).buffer())@ == final(old(canvas).buffer())@,
            final(canvas).pix() == ({
                let l = bar_layout(self.place(), *theme);
                let w = old(canvas).w();
                let back = crate::canvas::painted(
                    old(canvas).pix(),
                    w,
                    |x: int, y: int| self.place().has(x, y),
                    theme.bg_surface,
                );
                let boxed = crate::canvas::painted(
                    back,
                    w,
                    |x: int, y: int|
                        l.box_x <= x < l.box_x + l.side && l.box_y <= y < l.box_y + l.side,
                    self.shown().color(*palette),
                );
                crate::text::lettered(
                    boxed,
                    w,
                    l.text_x,
                    l.text_y,
                    self.shown().text(),
                    theme.text,
                    crate::canvas::at_least_one(theme.text_scale),
                )
            }),
    {
        let ghost l = bar_layout(self.rect, *theme);
        let ghost w = canvas.w();
        let rect = self.rect;
        canvas.fill_rect(&rect, theme.bg_surface);
        let bar_h: u32 = rect.h;
        let side: u32 = if bar_h <= 9 {
            1
        } else {
            bar_h - 8
        };
        let offset: u32 = bar_h.saturating_sub(side) / 2;
        let box_x: i64 = rect.x as i64 + theme.padding as i64;
        let box_y: i64 = rect.y as i64 + offset as i64;
        let ind = Rect { x: box_x as i32, y: box_y as i32, w: side, h: side };
        let ghost back = canvas.pix();
        canvas.fill_rect(&ind, indicator_color(self.state, palette));
        assert(canvas.pix() =~= crate::canvas::painted(
            back,
            w,
            |x: int, y: int| l.box_x <= x < l.box_x + l.side && l.box_y <= y < l.box_y + l.side,
            self.shown().color(*palette),
        ));
        let tall: u64 = 8 * theme.text_scale as u64;
        let text_h: u32 = if tall > u32::MAX as u64 {
            u32::MAX
        } else {
            tall as u32
        };
        let text_offset: u32 = bar_h.saturating_sub(text_h) / 2;
        let text_x: i64 = box_x + side as i64 + theme.padding as i64;
        let text_y: i64 = rect.y as i64 + text_offset as i64;
        draw_text(
            canvas,
            text_x as i32,
            text_y as i32,
            label_for(self.state),
            theme.text,
            theme.text_scale,
        );
    }
}

/// Maps a [`BackendStatusEvent`] to a [`BackendState`].
fn state_from_event(event: BackendStatusEvent) -> (r: BackendState)
    ensures
        r == announced(event),
{
    match event.backend {
        BackendKind::RemoteGpu => if event.degraded {
            BackendState::CpuDegraded
        } else {
            BackendState::Gpu
        },
        BackendKind::LocalCpu => BackendState::CpuDegraded,
    }
}

/// Returns the ARGB indicator colour for `state`.
fn indicator_color(state: BackendState, palette: &Palette) -> (r: u32)
    ensures
        r == state.color(*palette),
{
    match state {
        BackendState::Gpu => palette.sage_500,
        BackendState::CpuDegraded => palette.brick_500,
        BackendState::Unknown => MUTED,
    }
}

/// Returns the static label string for `state`.
fn label_for(state: BackendState) -> (r: &'static str)
    ensures
        r@ == state.text(),
{
    match state {
        BackendState::Gpu => "AI: GPU  127.0.0.1  NexyAI",
        BackendState::CpuDegraded => "AI: CPU (degraded - Ollama unreachable)",
        BackendState::Unknown => "AI: status unavailable",
    }
}

/// The indicator is a square in the middle of the bar's height, a padding from its left side, and
/// the text follows after another padding, in the middle too where it fits.
pub proof fn law_the_bar_is_laid_out_from_the_left(rect: Rect, theme: Theme)
    requires
        rect.h > 0,
    ensures
        ({
            let l = bar_layout(rect, theme);
            let above = l.box_y - rect.y;
            let below = rect.y + rect.h - (l.box_y + l.side);
            let high = 8 * theme.text_scale;
            &&& 1 <= l.side <= rect.h
            &&& 0 <= below - above <= 1
            &&& rect.h >= 9 ==> above + below == 8
            &&& l.box_x - rect.x == theme.padding
            &&& l.text_x - (l.box_x + l.side) == theme.padding
            &&& high <= rect.h ==> 0 <= rect.y + rect.h - (l.text_y + high) - (l.text_y - rect.y)
                <= 1
            &&& high > rect.h ==> l.text_y == rect.y
        }),
{
}

/// The bar shows the graphics processor exactly where a remote one answers and is not degraded.
pub proof fn law_degraded_backends_are_shown_as_such(event: BackendStatusEvent)
    ensures
        announced(event) == BackendState::Gpu <==> event.backend == BackendKind::RemoteGpu
            && !event.degraded,
        announced(event) != BackendState::Gpu ==> announced(event) == BackendState::CpuDegraded,
{
}

} // verus!
