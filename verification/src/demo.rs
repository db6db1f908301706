//! Decisions of the demo daemon: a window with a text field, a button and the AI status bar.
//!
//! The daemon around this module performs the system calls. It asks the functions here what a
//! reply means, and hands every message that it receives to [`DemoState`] or [`StatusWatch`],
//! which say what to log and whether to paint.

use vstd::prelude::*;

use crate::ai::BackendStatusEvent;
use crate::display_channel::keycode;
use crate::display_channel::DisplayInputEvent;
use crate::geometry::Rect;
use crate::layout::Direction;
use crate::status_bar::{BackendState, StatusBar};
use crate::strings::{from_chars, from_range, to_chars};
use crate::widget::{Widget, WidgetId};
use crate::wire::decode_canonical;

verus! {

/// Characters that the text field takes.
pub const MAX_INPUT_LEN: usize = 30;

/// Width of the window in pixels.
pub const WIN_W: u32 = 700;

/// Height of the window in pixels.
pub const WIN_H: u32 = 460;

/// Height of the status bar at the top of the window, in pixels.
pub const BAR_H: u32 = 34;

/// How often the status channel is looked up before the daemon goes on without it.
pub const AI_STATUS_LOOKUP_RETRIES: u32 = 200;

/// Idle polls between two heartbeat messages.
pub const EMPTY_POLL_LOG_INTERVAL: u32 = 200_000;

/// Exit code: no device information, or a screen that cannot be used.
pub const EXIT_NO_SCREEN: u32 = 2;

/// Exit code: no capability for the display.
pub const EXIT_NO_CAPABILITY: u32 = 3;

/// Exit codes from here on: mapping the display failed, with this much added to the error number.
pub const EXIT_MAP_FAILED: u32 = 40;

/// What the kernel says of the screen.
#[derive(Debug, Clone, Copy, PartialEq, Eq, Structural)]
pub struct ScreenInfo {
    /// Channel that input arrives on.
    pub input_channel: u64,
    /// Width in pixels.
    pub width: u32,
    /// Height in pixels.
    pub height: u32,
    /// Pixels from one row to the next.
    pub stride: u32,
    /// Bytes of a pixel.
    pub bytes_per_pixel: u32,
    /// Bytes of the frame buffer.
    pub len: u32,
}

/// Takes the device information, or gives the code to exit with: the information has to be there,
/// and a pixel has to have four bytes.
pub fn accept_screen(info: Option<ScreenInfo>) -> (r: Result<ScreenInfo, u32>)
    ensures
        r == (match info {
            Some(i) if i.bytes_per_pixel == 4 => Ok(i),
            _ => Err(EXIT_NO_SCREEN),
        }),
{
    match info {
        Some(i) => {
            if i.bytes_per_pixel == 4 {
                Ok(i)
            } else {
                Err(EXIT_NO_SCREEN)
            }
        },
        None => Err(EXIT_NO_SCREEN),
    }
}

/// The bytes to map: the length rounded up to whole pages of 4 KiB.
pub fn mapped_len(len: u32) -> (r: u64)
    ensures
        r % 4096 == 0,
        len <= r < len + 4096,
{
    (len as u64 + 4095) / 4096 * 4096
}

/// Takes the reply to mapping the display, or gives the code to exit with: the call must have
/// succeeded, and the screen must have pixels.
pub fn accept_mapping(info: &ScreenInfo, errno: u64) -> (r: Result<(), u32>)
    ensures
        r == (if errno != 0 {
            Err(
                if EXIT_MAP_FAILED + (errno as u32) <= u32::MAX {
                    (EXIT_MAP_FAILED + (errno as u32)) as u32
                } else {
                    u32::MAX
                },
            )
        } else if info.width == 0 || info.height == 0 || info.stride == 0 {
            Err(EXIT_NO_SCREEN)
        } else {
            Ok(())
        }),
{
    if errno != 0 {
        let low: u32 = #[verifier::truncate] (errno as u32);
        return Err(EXIT_MAP_FAILED.saturating_add(low));
    }
    if info.width == 0 || info.height == 0 || info.stride == 0 {
        return Err(EXIT_NO_SCREEN);
    }
    Ok(())
}

/// What to do after a lookup of the status channel.
#[derive(Debug, Clone, Copy, PartialEq, Eq, Structural)]
pub enum Lookup {
    /// The channel is known.
    Found(u64),
    /// Yield and try again, after this many failures.
    Retry(u32),
    /// Go on without the channel.
    GiveUp,
}

/// Decides after a lookup that came back with `channel` and `errno`, with `failures` before it.
pub fn after_lookup(failures: u32, channel: u64, errno: u64) -> (r: Lookup)
    ensures
        r == (if errno == 0 {
            Lookup::Found(channel)
        } else if failures + 1 >= AI_STATUS_LOOKUP_RETRIES {
            Lookup::GiveUp
        } else {
            Lookup::Retry((failures + 1) as u32)
        }),
{
    if errno == 0 {
        return Lookup::Found(channel);
    }
    let failed: u32 = failures.saturating_add(1);
    if failed >= AI_STATUS_LOOKUP_RETRIES {
        Lookup::GiveUp
    } else {
        Lookup::Retry(failed)
    }
}

/// The decision after `n` lookups that all failed.
pub open spec fn after_failures(n: nat) -> Lookup
    decreases n,
{
    if n == 0 {
        Lookup::Retry(0)
    } else {
        match after_failures((n - 1) as nat) {
            Lookup::Retry(k) => if k + 1 >= AI_STATUS_LOOKUP_RETRIES {
                Lookup::GiveUp
            } else {
                Lookup::Retry((k + 1) as u32)
            },
            other => other,
        }
    }
}

/// Looking the channel up ends: it is tried again until [`AI_STATUS_LOOKUP_RETRIES`] tries have
/// failed, and no longer.
pub proof fn law_lookup_is_bounded(n: nat)
    ensures
        after_failures(n) == (if n < AI_STATUS_LOOKUP_RETRIES {
            Lookup::Retry(n as u32)
        } else {
            Lookup::GiveUp
        }),
    decreases n,
{
    if n > 0 {
        law_lookup_is_bounded((n - 1) as nat);
    }
}

/// Decides after a poll of both channels: the new count of idle polls, whether to yield, and
/// whether to log a heartbeat. The daemon yields only if both channels were empty.
pub fn after_poll(idle: u32, got_input: bool, got_status: bool) -> (r: (u32, bool, bool))
    ensures
        r == (if got_input || got_status {
            (0u32, false, false)
        } else if idle + 1 >= EMPTY_POLL_LOG_INTERVAL {
            (0u32, true, true)
        } else {
            ((idle + 1) as u32, true, false)
        }),
{
    if got_input || got_status {
        return (0, false, false);
    }
    let idle: u32 = idle.saturating_add(1);
    if idle >= EMPTY_POLL_LOG_INTERVAL {
        (0, true, true)
    } else {
        (idle, true, false)
    }
}

/// The least multiple of `align` that is not below `pos`.
pub open spec fn aligned_up(pos: int, align: int) -> int {
    (pos + align - 1) / align * align
}

/// Takes `size` bytes from a heap of `heap` bytes, of which `pos` are taken, at a multiple of
/// `align`. Gives where they begin and how many bytes are taken then, or nothing if they do not
/// fit.
pub fn bump(pos: usize, align: usize, size: usize, heap: usize) -> (r: Option<(usize, usize)>)
    requires
        0 < align,
        pos + align - 1 <= usize::MAX,
    ensures
        r == (if aligned_up(pos as int, align as int) + size > heap {
            None
        } else {
            Some(
                (
                    aligned_up(pos as int, align as int) as usize,
                    (aligned_up(pos as int, align as int) + size) as usize,
                ),
            )
        }),
{
    let blocks: usize = (pos + (align - 1)) / align;
    proof {
        lemma_aligned_up(pos as int, align as int);
    }
    let start: usize = blocks * align;
    if start > heap || size > heap - start {
        return None;
    }
    Some((start, start + size))
}

proof fn lemma_aligned_up(pos: int, align: int)
    requires
        0 <= pos,
        0 < align,
    ensures
        pos <= aligned_up(pos, align) <= pos + align - 1,
        aligned_up(pos, align) % align == 0,
{
    let n = pos + align - 1;
    vstd::arithmetic::div_mod::lemma_fundamental_div_mod(n, align);
    vstd::arithmetic::mul::lemma_mul_is_commutative(n / align, align);
    vstd::arithmetic::div_mod::lemma_mod_bound(n, align);
    vstd::arithmetic::div_mod::lemma_mod_multiples_basic(n / align, align);
}

/// A block that fits the heap is aligned and begins where no earlier block reaches, with less than
/// `align` bytes left unused before it.
pub proof fn law_blocks_never_overlap(pos: usize, align: usize, size: usize, heap: usize)
    requires
        0 < align,
        aligned_up(pos as int, align as int) + size <= heap,
    ensures
        pos <= aligned_up(pos as int, align as int) < pos + align,
        aligned_up(pos as int, align as int) % align as int == 0,
{
    lemma_aligned_up(pos as int, align as int);
}

/// A character that the text field takes.
pub open spec fn is_printable(code: u8) -> bool {
    0x20 <= code <= 0x7E
}

/// What the window shows.
pub struct Shown {
    /// The contents of the text field.
    pub input: Seq<char>,
    /// The status line.
    pub status: Seq<char>,
}

impl Shown {
    /// What the window shows at the start.
    pub open spec fn initial() -> Shown {
        Shown { input: Seq::empty(), status: "type something, then Enter"@ }
    }

    /// The field holds no more than it takes.
    pub open spec fn valid(self) -> bool {
        self.input.len() <= MAX_INPUT_LEN
    }

    /// After a key was pressed.
    pub open spec fn after_key(self, code: u8) -> Shown {
        if is_printable(code) {
            if self.input.len() < MAX_INPUT_LEN {
                Shown { input: self.input.push(code as char), ..self }
            } else {
                self
            }
        } else if code == keycode::BACKSPACE {
            Shown {
                input: if self.input.len() > 0 {
                    self.input.drop_last()
                } else {
                    self.input
                },
                ..self
            }
        } else if code == keycode::ENTER {
            Shown { status: "submitted: "@ + self.input, ..self }
        } else {
            self
        }
    }
}

/// What a message on the input channel asks for.
#[derive(Debug, Clone, Copy, PartialEq, Eq, Structural)]
pub enum Reaction {
    /// The text field was edited and holds this many characters: log and paint.
    Edited(usize),
    /// The text was submitted: log and paint.
    Submitted,
    /// A key that does nothing: log its code.
    Idle(u8),
    /// A key was released.
    Released,
    /// The pointer moved: log where it is.
    Pointer {
        /// Absolute X in pixels.
        x: u32,
        /// Absolute Y in pixels.
        y: u32,
        /// Button mask.
        buttons: u8,
    },
    /// The message could not be decoded: log its length.
    Garbled(usize),
}

/// The state of the window.
pub struct DemoState {
    input: String,
    status: String,
}

impl View for DemoState {
    type V = Shown;

    closed spec fn view(&self) -> Shown {
        Shown { input: self.input@, status: self.status@ }
    }
}

/// The reaction to a key press in a given state.
pub open spec fn key_reaction(s: Shown, code: u8) -> Reaction {
    if is_printable(code) || code == keycode::BACKSPACE {
        Reaction::Edited(s.after_key(code).input.len() as usize)
    } else if code == keycode::ENTER {
        Reaction::Submitted
    } else {
        Reaction::Idle(code)
    }
}

/// The reaction to an event in a given state, and the state after it.
pub open spec fn event_reaction(s: Shown, e: DisplayInputEvent) -> (Shown, Reaction) {
    match e {
        DisplayInputEvent::Key { code, pressed } => if pressed {
            (s.after_key(code), key_reaction(s, code))
        } else {
            (s, Reaction::Released)
        },
        DisplayInputEvent::Pointer { x, y, buttons } => (s, Reaction::Pointer { x, y, buttons }),
    }
}

impl DemoState {
    #[verifier::type_invariant]
    spec fn inv(&self) -> bool {
        self@.valid()
    }

    /// An empty field and the hint.
    pub fn new() -> (r: Self)
        ensures
            r@ == Shown::initial(),
    {
        let none: Vec<char> = Vec::new();
        let input = from_chars(&none);
        assert(input@ =~= Seq::empty());
        DemoState { input, status: "type something, then Enter".to_owned() }
    }

    /// The contents of the text field, no longer than the field takes.
    pub fn input(&self) -> (r: &str)
        ensures
            r@ == self@.input,
            self@.valid(),
    {
        proof {
            use_type_invariant(self);
        }
        self.input.as_str()
    }

    /// The status line.
    pub fn status(&self) -> (r: &str)
        ensures
            r@ == self@.status,
    {
        self.status.as_str()
    }

    /// A key was pressed.
    pub fn press(&mut self, code: u8) -> (r: Reaction)
        ensures
            final(self)@ == old(self)@.after_key(code),
            r == key_reaction(old(self)@, code),
    {
        proof {
            use_type_invariant(&*self);
        }
        let ghost before = self@;
        if 0x20 <= code && code <= 0x7E {
            let mut v = to_chars(self.input.as_str());
            if v.len() < MAX_INPUT_LEN {
                v.push(code as char);
                let s = from_chars(&v);
                assert(s@ =~= before.input.push(code as char));
                self.input = s;
            }
            return Reaction::Edited(v.len());
        }
        if code == keycode::BACKSPACE {
            let v = to_chars(self.input.as_str());
            let len: usize = v.len();
            if len > 0 {
                let s = from_range(&v, 0, len - 1);
                assert(s@ =~= before.input.drop_last());
                self.input = s;
                return Reaction::Edited(len - 1);
            }
            return Reaction::Edited(0);
        }
        if code == keycode::ENTER {
            let mut s = "submitted: ".to_owned();
            s.push_str(self.input.as_str());
            self.status = s;
            return Reaction::Submitted;
        }
        Reaction::Idle(code)
    }

    /// A message arrived on the input channel.
    pub fn on_input(&mut self, payload: &[u8]) -> (r: Reaction)
        ensures
            exists|d: Result<DisplayInputEvent, crate::wire::WireError>| #[trigger]
                crate::wire::decodes(payload@, d) && (match d {
                    Ok(e) => (final(self)@, r) == event_reaction(old(self)@, e),
                    Err(_) => final(self)@ == old(self)@ && r == Reaction::Garbled(
                        payload@.len() as usize,
                    ),
                }),
    {
        let d = decode_canonical::<DisplayInputEvent>(payload);
        let ghost seen = d;
        match d {
            Ok(DisplayInputEvent::Key { code, pressed }) => {
                if pressed {
                    let r = self.press(code);
                    assert(crate::wire::decodes(payload@, seen));
                    r
                } else {
                    assert(crate::wire::decodes(payload@, seen));
                    Reaction::Released
                }
            },
            Ok(DisplayInputEvent::Pointer { x, y, buttons }) => {
                assert(crate::wire::decodes(payload@, seen));
                Reaction::Pointer { x, y, buttons }
            },
            Err(_) => {
                assert(crate::wire::decodes(payload@, seen));
                Reaction::Garbled(payload.len())
            },
        }
    }

    /// The widgets of the window.
    pub fn tree(&self) -> (r: Widget)
        ensures
            is_tree(r, self@.input, self@.status),
    {
        build_tree(self.input.as_str(), self.status.as_str())
    }
}

/// Keys keep the field within its limit.
pub proof fn law_input_is_bounded(s: Shown, code: u8)
    requires
        s.valid(),
    ensures
        s.after_key(code).valid(),
{
}

/// Backspace takes back what was typed, as long as the field had room for it.
pub proof fn law_backspace_undoes_typing(s: Shown, code: u8)
    requires
        is_printable(code),
        s.input.len() < MAX_INPUT_LEN,
    ensures
        s.after_key(code).after_key(keycode::BACKSPACE) == s,
{
    assert(s.input.push(code as char).drop_last() == s.input);
}

/// An event is read back from its encoding, so a message has the effect of the event that was
/// sent.
pub proof fn law_messages_have_their_effect(
    e: DisplayInputEvent,
    d: Result<DisplayInputEvent, crate::wire::WireError>,
)
    requires
        crate::wire::decodes(crate::wire::Wire::bytes(&e), d),
    ensures
        d == Ok::<DisplayInputEvent, crate::wire::WireError>(e),
{
    crate::wire::law_round_trip(e, d);
}

/// A rectangle without extent, which layout fills in.
pub open spec fn nowhere() -> Rect {
    Rect { x: 0, y: 0, w: 0, h: 0 }
}

/// The widget tree of the window: a title, a text field with its cursor at the end, a button and
/// a status line, from top to bottom.
pub open spec fn is_tree(w: Widget, input: Seq<char>, status: Seq<char>) -> bool {
    match w {
        Widget::Container { direction, children, rect } => {
            &&& direction == Direction::Vertical
            &&& rect == nowhere()
            &&& children@.len() == 4
            &&& (children@[0] matches Widget::Label { text, rect } && text@
                == "NexaCore OS -- nexacore-ui demo"@ && rect == nowhere())
            &&& (children@[1] matches Widget::TextInput { id, text, cursor, rect } && id == WidgetId(
                1,
            ) && text@ == input && cursor == input.len() && rect == nowhere())
            &&& (children@[2] matches Widget::Button { id, text, rect } && id == WidgetId(2)
                && text@ == "Submit"@ && rect == nowhere())
            &&& (children@[3] matches Widget::Label { text, rect } && text@ == status && rect
                == nowhere())
        },
        _ => false,
    }
}

/// Builds the widget tree of the window.
pub fn build_tree(input_text: &str, status_text: &str) -> (r: Widget)
    ensures
        is_tree(r, input_text@, status_text@),
{
    let zero = Rect { x: 0, y: 0, w: 0, h: 0 };
    let mut children: Vec<Widget> = Vec::new();
    children.push(
        Widget::Label { text: "NexaCore OS -- nexacore-ui demo".to_owned(), rect: zero },
    );
    children.push(
        Widget::TextInput {
            id: WidgetId(1),
            text: input_text.to_owned(),
            cursor: to_chars(input_text).len(),
            rect: zero,
        },
    );
    children.push(Widget::Button { id: WidgetId(2), text: "Submit".to_owned(), rect: zero });
    children.push(Widget::Label { text: status_text.to_owned(), rect: zero });
    Widget::Container { direction: Direction::Vertical, children, rect: zero }
}

/// The area of the widgets: the window below the status bar, inset by the padding.
pub fn content_rect(w: u32, h: u32, padding: u32) -> (r: Rect)
    requires
        BAR_H + padding <= i32::MAX,
    ensures
        r.x == padding,
        r.y == BAR_H + padding,
        r.w == crate::geometry::cut(w as int, 2 * padding),
        r.h == crate::geometry::cut(crate::geometry::cut(h as int, BAR_H as int), 2 * padding),
{
    Rect {
        x: padding as i32,
        y: (BAR_H + padding) as i32,
        w: w.saturating_sub(2 * padding),
        h: h.saturating_sub(BAR_H).saturating_sub(2 * padding),
    }
}

/// The status bar and what was last logged of it.
pub struct StatusWatch {
    bar: StatusBar,
    logged: BackendState,
}

impl StatusWatch {
    /// The state that the bar shows.
    pub closed spec fn shown(&self) -> BackendState {
        self.bar.shown()
    }

    /// Where the bar lies.
    pub closed spec fn place(&self) -> Rect {
        self.bar.place()
    }

    /// The state that was last logged.
    pub closed spec fn last(&self) -> BackendState {
        self.logged
    }

    /// A bar across the top of the window that knows nothing of the backend.
    pub fn new() -> (r: Self)
        ensures
            r.shown() == BackendState::Unknown,
            r.last() == BackendState::Unknown,
            r.place() == (Rect { x: 0, y: 0, w: WIN_W, h: BAR_H }),
    {
        let mut bar = StatusBar::new();
        bar.layout(Rect { x: 0, y: 0, w: WIN_W, h: BAR_H });
        StatusWatch { bar, logged: BackendState::Unknown }
    }

    /// The bar, for painting.
    pub fn bar(&self) -> (r: &StatusBar)
        ensures
            r.shown() == self.shown(),
            r.place() == self.place(),
    {
        &self.bar
    }

    /// A message arrived on the status channel. Says whether to paint, and which state to log if
    /// it is a new one. A message that cannot be decoded changes nothing.
    pub fn on_status(&mut self, payload: &[u8]) -> (r: (bool, Option<BackendState>))
        ensures
            final(self).place() == old(self).place(),
            exists|d: Result<BackendStatusEvent, crate::wire::WireError>| #[trigger]
                crate::wire::decodes(payload@, d) && (match d {
                    Ok(e) => {
                        let s = crate::status_bar::announced(e);
                        final(self).shown() == s && final(self).last() == s && r == (
                            true,
                            if s == old(self).last() {
                                None
                            } else {
                                Some(s)
                            },
                        )
                    },
                    Err(_) => *final(self) == *old(self) && r == (false, None::<BackendState>),
                }),
    {
        let d = decode_canonical::<BackendStatusEvent>(payload);
        let ghost seen = d;
        match d {
            Ok(event) => {
                self.bar.apply(event);
                let state = self.bar.state();
                assert(crate::wire::decodes(payload@, seen));
                if state != self.logged {
                    self.logged = state;
                    (true, Some(state))
                } else {
                    (true, None)
                }
            },
            Err(_) => {
                assert(crate::wire::decodes(payload@, seen));
                (false, None)
            },
        }
    }
}

/// A run of pixels to copy from the back buffer to the screen.
#[derive(Debug, Clone, Copy, PartialEq, Eq, Structural)]
pub struct RowCopy {
    /// Where the run begins in the back buffer.
    pub back_start: u64,
    /// Where it goes on the screen.
    pub front_start: u64,
    /// How many pixels it has.
    pub count: u64,
}

/// The screen that pixels are copied to.
#[derive(Debug, Clone, Copy, PartialEq, Eq, Structural)]
pub struct Screen {
    /// Width in pixels.
    pub width: u32,
    /// Height in pixels.
    pub height: u32,
    /// Pixels from one row to the next.
    pub stride: u32,
}

/// The smaller of two numbers.
pub open spec fn smaller(a: int, b: int) -> int {
    if a <= b {
        a
    } else {
        b
    }
}

/// The copies of the rows from `y` to below `end`, of the pixels from `x0` to below `x1`, as far as
/// the back buffer holds them.
pub open spec fn row_copies(x0: int, x1: int, y: int, end: int, s: Screen, back: int) -> Seq<RowCopy>
    decreases end - y,
{
    if y >= end || x0 >= x1 {
        Seq::empty()
    } else {
        let rest = row_copies(x0, x1, y + 1, end, s, back);
        if y * s.width + x1 <= back {
            seq![
                RowCopy {
                    back_start: (y * s.width + x0) as u64,
                    front_start: (y * s.stride + x0) as u64,
                    count: (x1 - x0) as u64,
                },
            ] + rest
        } else {
            rest
        }
    }
}

/// What presenting a damaged rectangle copies: its part on the screen, row by row.
pub open spec fn damage_copies(d: Rect, s: Screen, back: int) -> Seq<RowCopy> {
    row_copies(
        d.x as int,
        smaller(d.x + d.w, s.width as int),
        d.y as int,
        smaller(d.y + d.h, s.height as int),
        s,
        back,
    )
}

/// Where a row begins, and where a pixel of it lies, have `u64` numbers.
proof fn lemma_row(y: int, pitch: u32, x: int, rows: u32)
    requires
        0 <= y < rows,
        0 <= x <= u32::MAX,
    ensures
        0 <= y * pitch,
        0 <= y * pitch + x <= u64::MAX,
        x <= pitch ==> y * pitch + x <= rows * pitch,
{
    assert(0 <= y * pitch) by (nonlinear_arith)
        requires
            0 <= y,
    ;
    assert((y + 1) * pitch <= rows * pitch) by (nonlinear_arith)
        requires
            y + 1 <= rows,
    ;
    assert((y + 1) * pitch == y * pitch + pitch) by (nonlinear_arith);
    assert(y * pitch <= 0xFFFF_FFFE * 0xFFFF_FFFF) by (nonlinear_arith)
        requires
            0 <= y <= 0xFFFF_FFFE,
            pitch <= 0xFFFF_FFFF,
    ;
}

/// Plans the copies that show a damaged rectangle, of a back buffer with `back_len` pixels.
pub fn copies(damage: &Rect, screen: &Screen, back_len: usize) -> (r: Vec<RowCopy>)
    requires
        damage.x >= 0,
        damage.y >= 0,
    ensures
        r@ == damage_copies(*damage, *screen, back_len as int),
{
    let x0: u64 = damage.x as u64;
    let y0: u64 = damage.y as u64;
    let sum_x: u64 = x0 + damage.w as u64;
    let sum_y: u64 = y0 + damage.h as u64;
    let x1: u64 = if sum_x <= screen.width as u64 {
        sum_x
    } else {
        screen.width as u64
    };
    let y1: u64 = if sum_y <= screen.height as u64 {
        sum_y
    } else {
        screen.height as u64
    };
    let ghost all = damage_copies(*damage, *screen, back_len as int);
    let mut out: Vec<RowCopy> = Vec::new();
    let mut y: u64 = y0;
    assert(Seq::<RowCopy>::empty() + all == all);
    while y < y1 && x0 < x1
        invariant
            x0 <= i32::MAX,
            y0 <= y,
            y1 <= screen.height,
            x1 <= screen.width,
            all == out@ + row_copies(
                x0 as int,
                x1 as int,
                y as int,
                y1 as int,
                *screen,
                back_len as int,
            ),
        decreases y1 - y,
    {
        let ghost seen = out@;
        let ghost rest = row_copies(
            x0 as int,
            x1 as int,
            y + 1,
            y1 as int,
            *screen,
            back_len as int,
        );
        proof {
            lemma_row(y as int, screen.width, x1 as int, screen.height);
            lemma_row(y as int, screen.width, x0 as int, screen.height);
            lemma_row(y as int, screen.stride, x0 as int, screen.height);
        }
        if y * screen.width as u64 + x1 <= back_len as u64 {
            let c = RowCopy {
                back_start: y * screen.width as u64 + x0,
                front_start: y * screen.stride as u64 + x0,
                count: x1 - x0,
            };
            proof {
                crate::lists::lemma_assoc(seen, seq![c], rest);
            }
            out.push(c);
            assert(out@ =~= seen + seq![c]);
        }
        y = y + 1;
    }
    assert(out@ + Seq::<RowCopy>::empty() == out@);
    out
}

/// A copy reads only pixels of the back buffer, and writes only pixels of the screen.
pub open spec fn stays_inside(c: RowCopy, s: Screen, back: int) -> bool {
    c.back_start + c.count <= back && c.front_start + c.count <= s.stride * s.height
}

/// Presenting stays inside both buffers: whatever the damage, no copy reads past the back buffer
/// or writes past the screen.
pub proof fn law_presenting_stays_inside(d: Rect, s: Screen, back: int, i: int)
    requires
        d.x >= 0,
        d.y >= 0,
        s.width <= s.stride,
        0 <= i < damage_copies(d, s, back).len(),
    ensures
        stays_inside(damage_copies(d, s, back)[i], s, back),
{
    lemma_copies_inside(
        d.x as int,
        smaller(d.x + d.w, s.width as int),
        d.y as int,
        smaller(d.y + d.h, s.height as int),
        s,
        back,
        i,
    );
}

proof fn lemma_copies_inside(x0: int, x1: int, y: int, end: int, s: Screen, back: int, i: int)
    requires
        0 <= x0,
        x1 <= s.width <= s.stride,
        0 <= y,
        end <= s.height,
        0 <= i < row_copies(x0, x1, y, end, s, back).len(),
    ensures
        stays_inside(row_copies(x0, x1, y, end, s, back)[i], s, back),
    decreases end - y,
{
    lemma_row(y, s.width, x0, s.height);
    lemma_row(y, s.stride, x0, s.height);
    lemma_row(y, s.stride, x1, s.height);
    assert(s.height * s.stride == s.stride * s.height) by (nonlinear_arith);
    if y * s.width + x1 <= back {
        if i > 0 {
            lemma_copies_inside(x0, x1, y + 1, end, s, back, i - 1);
        }
    } else {
        lemma_copies_inside(x0, x1, y + 1, end, s, back, i);
    }
}

/// The `k` low hexadecimal digits of a number.
pub open spec fn hex_digits(n: nat, k: nat) -> Seq<char>
    decreases k,
{
    if k == 0 {
        Seq::empty()
    } else {
        hex_digits(n / 16, (k - 1) as nat).push(hex_digit(n % 16))
    }
}

/// The hexadecimal digit of a number below sixteen.
pub open spec fn hex_digit(d: nat) -> char {
    if d < 10 {
        (0x30 + d) as char
    } else {
        (0x57 + d) as char
    }
}

/// A number as `0x` and sixteen hexadecimal digits, for the log.
pub fn hex(val: u64) -> (r: String)
    ensures
        r@ == "0x"@ + hex_digits(val as nat, 16),
{
    let mut s = "0x".to_owned();
    push_hex(&mut s, val, 16);
    s
}

fn push_hex(out: &mut String, n: u64, k: usize)
    ensures
        final(out)@ == old(out)@ + hex_digits(n as nat, k as nat),
    decreases k,
{
    let ghost start = out@;
    if k > 0 {
        push_hex(out, n / 16, k - 1);
        let d: u8 = (n % 16) as u8;
        let c: char = if d < 10 {
            (0x30 + d) as char
        } else {
            (0x57 + d) as char
        };
        out.push(c);
        assert((start + hex_digits(n as nat / 16, (k - 1) as nat)).push(c) == start + hex_digits(
            n as nat,
            k as nat,
        ));
    } else {
        assert(start + Seq::<char>::empty() == start);
    }
}

/// Whether a copy is row `y` of the visible part of a damaged rectangle.
pub open spec fn copies_row(c: RowCopy, d: Rect, s: Screen, y: int) -> bool {
    let right = if d.x + d.w <= s.width {
        d.x + d.w
    } else {
        s.width as int
    };
    &&& c.back_start == y * s.width + d.x
    &&& c.front_start == y * s.stride + d.x
    &&& c.count == right - d.x
}

proof fn lemma_row_copies(
    d: Rect,
    x1: int,
    y: int,
    end: int,
    s: Screen,
    back: int,
) -> (rows: Seq<int>)
    requires
        0 <= d.x < x1 <= s.width,
        0 <= y,
        end <= s.height,
    ensures
        rows.len() == row_copies(d.x as int, x1, y, end, s, back).len(),
        forall|i: int, j: int| 0 <= i < j < rows.len() ==> #[trigger] rows[i] < #[trigger] rows[j],
        forall|i: int|
            0 <= i < rows.len() ==> {
                let c = row_copies(d.x as int, x1, y, end, s, back)[i];
                let r = #[trigger] rows[i];
                &&& y <= r < end
                &&& c.back_start == r * s.width + d.x
                &&& c.front_start == r * s.stride + d.x
                &&& c.count == x1 - d.x
            },
        forall|r: int| y <= r < end && #[trigger] (r * s.width) + x1 <= back ==> rows.contains(r),
    decreases end - y,
{
    if y >= end {
        Seq::empty()
    } else {
        let later = lemma_row_copies(d, x1, y + 1, end, s, back);
        lemma_row(y, s.width, d.x as int, s.height);
        lemma_row(y, s.stride, d.x as int, s.height);
        if y * s.width + x1 <= back {
            let rows = seq![y] + later;
            let all = row_copies(d.x as int, x1, y, end, s, back);
            let rest = row_copies(d.x as int, x1, y + 1, end, s, back);
            assert forall|i: int| 0 <= i < rows.len() implies {
                let c = all[i];
                let r = #[trigger] rows[i];
                &&& y <= r < end
                &&& c.back_start == r * s.width + d.x
                &&& c.front_start == r * s.stride + d.x
                &&& c.count == x1 - d.x
            } by {
                if i > 0 {
                    assert(rows[i] == later[i - 1]);
                    assert(all[i] == rest[i - 1]);
                }
            }
            assert forall|i: int, j: int| 0 <= i < j < rows.len() implies #[trigger] rows[i]
                < #[trigger] rows[j] by {
                assert(rows[j] == later[j - 1]);
                if i > 0 {
                    assert(rows[i] == later[i - 1]);
                }
            }
            assert forall|r: int|
                y <= r < end && #[trigger] (r * s.width) + x1 <= back implies rows.contains(r) by {
                if r == y {
                    assert(rows[0] == r);
                } else {
                    assert(later.contains(r));
                    let k = choose|k: int| 0 <= k < later.len() && later[k] == r;
                    assert(rows[k + 1] == r);
                }
            }
            rows
        } else {
            later
        }
    }
}

/// Presenting copies exactly what was damaged and is visible: one copy for each row, from the top
/// down, of the pixels from the left edge of the damage to its right edge or that of the screen. A
/// row is left out only if the back buffer does not hold it.
pub proof fn law_presenting_copies_the_damage(d: Rect, s: Screen, back: int) -> (rows: Seq<int>)
    requires
        0 <= d.x < s.width,
        0 <= d.y,
        d.w > 0,
    ensures
        rows.len() == damage_copies(d, s, back).len(),
        forall|i: int, j: int| 0 <= i < j < rows.len() ==> #[trigger] rows[i] < #[trigger] rows[j],
        forall|i: int|
            0 <= i < rows.len() ==> d.y <= #[trigger] rows[i] < d.y + d.h && rows[i] < s.height
                && copies_row(damage_copies(d, s, back)[i], d, s, rows[i]),
        forall|r: int|
            d.y <= r < d.y + d.h && r < s.height && #[trigger] (r * s.width) + (if d.x + d.w
                <= s.width {
                d.x + d.w
            } else {
                s.width as int
            }) <= back ==> rows.contains(r),
{
    let x1 = smaller(d.x + d.w, s.width as int);
    let end = smaller(d.y + d.h, s.height as int);
    lemma_row_copies(d, x1, d.y as int, end, s, back)
}

proof fn lemma_hex_len(n: nat, k: nat)
    ensures
        hex_digits(n, k).len() == k,
    decreases k,
{
    if k > 0 {
        lemma_hex_len(n / 16, (k - 1) as nat);
    }
}

/// Every hexadecimal digit is the one of its place.
pub proof fn law_hex_digits_are_in_place(n: nat, k: nat, i: int)
    requires
        0 <= i < k,
    ensures
        hex_digits(n, k).len() == k,
        hex_digits(n, k)[i] == hex_digit(
            (n as int / vstd::arithmetic::power::pow(16, (k - 1 - i) as nat) % 16) as nat,
        ),
    decreases k,
{
    let p = (k - 1 - i) as nat;
    lemma_hex_len(n, k);
    lemma_hex_len(n / 16, (k - 1) as nat);
    vstd::arithmetic::power::lemma_pow0(16);
    if i < k - 1 {
        let q = (p - 1) as nat;
        law_hex_digits_are_in_place(n / 16, (k - 1) as nat, i);
        assert(hex_digits(n, k)[i] == hex_digits(n / 16, (k - 1) as nat)[i]);
        reveal(vstd::arithmetic::power::pow);
        assert(vstd::arithmetic::power::pow(16, p) == 16 * vstd::arithmetic::power::pow(16, q));
        vstd::arithmetic::power::lemma_pow_positive(16, q);
        vstd::arithmetic::div_mod::lemma_div_denominator(
            n as int,
            16,
            vstd::arithmetic::power::pow(16, q),
        );
    } else {
        assert(n as int / 1 == n);
        assert(hex_digits(n, k)[i] == hex_digit(n % 16));
    }
}

} // verus!
