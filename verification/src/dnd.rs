//! Drag-and-drop protocol: grab, motion, drop, and MIME negotiation.
//!
//! A [`DragSource`] offers a payload (a [`ClipboardContent`] of one or more MIME representations)
//! plus the actions it supports (copy / move / link). A [`DropTarget`] declares which MIME types and
//! actions it accepts. A [`DndSession`] is the state machine the compositor drives: `start_drag`
//! (grab), `enter_target` / `leave_target` (motion), and `drop_on_target` — which succeeds only when
//! the source and target share a MIME type and an action.

use vstd::prelude::*;

use crate::clipboard::{copy_bytes, ClipboardContent, MIME_TEXT};
use crate::strings::{decode_text, from_range, str_eq, to_chars};

verus! {

/// A drag-and-drop action.
#[derive(Debug, Clone, Copy, PartialEq, Eq, Structural)]
pub enum DndAction {
    /// Copy the data to the target.
    Copy,
    /// Move the data (source deletes it after a successful drop).
    Move,
    /// Create a link/reference at the target.
    Link,
}

/// The drag cursor that represents an action.
pub open spec fn cursor_of(action: DndAction) -> DragCursor {
    match action {
        DndAction::Copy => DragCursor::Copy,
        DndAction::Move => DragCursor::Move,
        DndAction::Link => DragCursor::Link,
    }
}

impl DndAction {
    /// The drag cursor that represents this action.
    fn drag_cursor(self) -> (r: DragCursor)
        ensures
            r == cursor_of(self),
    {
        match self {
            DndAction::Copy => DragCursor::Copy,
            DndAction::Move => DragCursor::Move,
            DndAction::Link => DragCursor::Link,
        }
    }
}

/// The semantic drag cursor shown during a drag.
///
/// This is the meaning the compositor should render, not a pixel buffer.
#[derive(Debug, Clone, Copy, PartialEq, Eq, Structural)]
pub enum DragCursor {
    /// A drag is in progress but the pointer is not over a droppable target.
    Grabbing,
    /// Over a target that would copy the payload.
    Copy,
    /// Over a target that would move the payload.
    Move,
    /// Over a target that would link the payload.
    Link,
    /// Over a target that cannot accept the payload (no mutual MIME/action).
    NoDrop,
}

/// Pixel offset of the drag ghost from the pointer, so the preview trails the cursor instead of
/// hiding beneath it.
pub const GHOST_OFFSET: i32 = 12;

/// The drag ghost preview shown trailing the pointer during a drag.
#[derive(Debug, Clone, PartialEq, Eq)]
pub struct DragFeedback {
    /// The drag cursor to display.
    pub cursor: DragCursor,
    /// Top-left x of the ghost preview.
    pub ghost_x: i32,
    /// Top-left y of the ghost preview.
    pub ghost_y: i32,
    /// Whether the current target should highlight (it would accept the drop).
    pub target_highlight: bool,
    /// A short label describing the dragged payload.
    pub label: String,
}

/// The drag source: the offered payload and supported actions.
#[derive(Debug, Clone)]
pub struct DragSource {
    /// The payload, available in one or more MIME representations.
    pub data: ClipboardContent,
    /// Actions the source supports, in preference order.
    pub actions: Vec<DndAction>,
}

/// The drop target: accepted MIME types and actions.
#[derive(Debug, Clone)]
pub struct DropTarget {
    /// MIME types the target can accept.
    pub accepted_mimes: Vec<String>,
    /// Actions the target permits.
    pub actions: Vec<DndAction>,
}

/// The negotiated `(mime, action)` a drop would perform.
#[derive(Debug, Clone, PartialEq, Eq)]
pub struct DndMatch {
    /// The chosen MIME type (source-preferred, target-accepted).
    pub mime: String,
    /// The chosen action.
    pub action: DndAction,
}

/// The outcome of a successful drop.
#[derive(Debug, Clone, PartialEq, Eq)]
pub struct DropResult {
    /// The negotiated MIME type.
    pub mime: String,
    /// The negotiated action.
    pub action: DndAction,
    /// The payload bytes in the negotiated MIME representation.
    pub bytes: Vec<u8>,
}

/// The session state.
#[derive(Debug, Clone, Copy, PartialEq, Eq, Structural)]
pub enum DndState {
    /// No drag in progress.
    Idle,
    /// A drag is in progress but the pointer is not over a drop target.
    Dragging,
    /// The pointer is over a drop target.
    OverTarget,
    /// A drop completed successfully.
    Dropped,
    /// The drag was cancelled (or a drop was rejected).
    Cancelled,
}

impl Default for DndState {
    fn default() -> (r: Self)
        ensures
            r == DndState::Idle,
    {
        DndState::Idle
    }
}

// ---------------------------------------------------------------------------
// Model
// ---------------------------------------------------------------------------

/// What a source offers.
pub struct Offer {
    /// The representations of the payload.
    pub formats: Seq<(Seq<char>, Seq<u8>)>,
    /// The supported actions, in preference order.
    pub actions: Seq<DndAction>,
}

/// What a target accepts.
pub struct Demand {
    /// The MIME types.
    pub mimes: Seq<Seq<char>>,
    /// The actions.
    pub actions: Seq<DndAction>,
}

impl View for DragSource {
    type V = Offer;

    open spec fn view(&self) -> Offer {
        Offer { formats: self.data@, actions: self.actions@ }
    }
}

impl View for DropTarget {
    type V = Demand;

    open spec fn view(&self) -> Demand {
        Demand { mimes: crate::lists::texts(self.accepted_mimes@), actions: self.actions@ }
    }
}

/// The first entry of `wanted` that is also in `allowed`.
pub open spec fn first_mutual<T>(wanted: Seq<T>, allowed: Seq<T>) -> Option<T>
    decreases wanted.len(),
{
    if wanted.len() == 0 {
        None
    } else if allowed.contains(wanted[0]) {
        Some(wanted[0])
    } else {
        first_mutual(wanted.drop_first(), allowed)
    }
}

/// The MIME types of some representations.
pub open spec fn mimes_of(formats: Seq<(Seq<char>, Seq<u8>)>) -> Seq<Seq<char>> {
    formats.map_values(|f: (Seq<char>, Seq<u8>)| f.0)
}

/// The MIME type and the action that source and target agree on: of each, the first of the source
/// that the target accepts.
pub open spec fn agreement(source: Offer, target: Demand) -> Option<(Seq<char>, DndAction)> {
    match (
        first_mutual(mimes_of(source.formats), target.mimes),
        first_mutual(source.actions, target.actions),
    ) {
        (Some(m), Some(a)) => Some((m, a)),
        _ => None,
    }
}

/// A drag in one of its states.
pub struct Drag {
    /// What is dragged.
    pub source: Option<Offer>,
    /// What the pointer is over.
    pub target: Option<Demand>,
    /// The state.
    pub state: DndState,
}

impl Drag {
    /// Whether there is a source during a drag, and a target exactly while the pointer is over it.
    pub open spec fn valid(self) -> bool {
        &&& self.state == DndState::Dragging ==> self.source is Some && self.target is None
        &&& self.state == DndState::OverTarget ==> self.source is Some && self.target is Some
    }

    /// What a drop would perform: nothing unless a drag is over a target that agrees with the
    /// source.
    pub open spec fn outcome(self) -> Option<(Seq<char>, DndAction)> {
        if self.state == DndState::OverTarget {
            agreement(self.source->Some_0, self.target->Some_0)
        } else {
            None
        }
    }

    /// The drag cursor.
    pub open spec fn pointer(self) -> Option<DragCursor> {
        match self.state {
            DndState::Dragging => Some(DragCursor::Grabbing),
            DndState::OverTarget => Some(
                match self.outcome() {
                    Some((_, action)) => cursor_of(action),
                    None => DragCursor::NoDrop,
                },
            ),
            _ => None,
        }
    }
}

/// A short form of a text: its first 32 characters, and an ellipsis where there are more.
pub open spec fn short_label(text: Seq<char>) -> Seq<char> {
    if text.len() > 32 {
        text.take(32).push('…')
    } else {
        text
    }
}

/// The label of a payload: its plain text, shortened, or its primary MIME type.
pub open spec fn label_of(formats: Seq<(Seq<char>, Seq<u8>)>) -> Seq<char> {
    match crate::clipboard::text_of(formats) {
        Some(text) => short_label(text),
        None => if formats.len() > 0 {
            formats[0].0
        } else {
            Seq::empty()
        },
    }
}

/// `n` moved by the ghost offset, at most the largest `i32`.
pub open spec fn trailing(n: i32) -> i32 {
    if n + GHOST_OFFSET > i32::MAX {
        i32::MAX
    } else {
        (n + GHOST_OFFSET) as i32
    }
}

proof fn lemma_first_mutual<T>(wanted: Seq<T>, allowed: Seq<T>)
    ensures
        first_mutual(wanted, allowed) matches Some(x) ==> wanted.contains(x) && allowed.contains(x),
        (first_mutual(wanted, allowed) is None) <==> forall|i: int|
            0 <= i < wanted.len() ==> !allowed.contains(#[trigger] wanted[i]),
    decreases wanted.len(),
{
    if wanted.len() > 0 && !allowed.contains(wanted[0]) {
        let rest = wanted.drop_first();
        lemma_first_mutual(rest, allowed);
        match first_mutual(rest, allowed) {
            Some(x) => {
                let k = choose|k: int| 0 <= k < rest.len() && rest[k] == x;
                assert(wanted[k + 1] == x);
                assert(allowed.contains(wanted[k + 1]));
            },
            None => {
                assert forall|i: int| 0 <= i < wanted.len() implies !allowed.contains(
                    #[trigger] wanted[i],
                ) by {
                    if i > 0 {
                        assert(rest[i - 1] == wanted[i]);
                    }
                }
            },
        }
    } else if wanted.len() > 0 {
        assert(wanted.contains(wanted[0]));
    }
}

/// A drop succeeds exactly if source and target share a MIME type and an action, and it is carried
/// out with one that both have.
pub proof fn law_drop_needs_a_shared_type_and_action(source: Offer, target: Demand)
    ensures
        agreement(source, target) is Some <==> (exists|i: int|
            0 <= i < source.formats.len() && target.mimes.contains(
                (#[trigger] source.formats[i]).0,
            )) && (exists|j: int|
            0 <= j < source.actions.len() && target.actions.contains(#[trigger] source.actions[j])),
        agreement(source, target) matches Some((mime, action)) ==> target.mimes.contains(mime)
            && target.actions.contains(action) && source.actions.contains(action)
            && crate::clipboard::bytes_of(source.formats, mime) is Some,
{
    let mimes = mimes_of(source.formats);
    lemma_first_mutual(mimes, target.mimes);
    lemma_first_mutual(source.actions, target.actions);
    if first_mutual(mimes, target.mimes) is None {
        assert forall|i: int| 0 <= i < source.formats.len() implies !target.mimes.contains(
            (#[trigger] source.formats[i]).0,
        ) by {
            assert(!target.mimes.contains(mimes[i]));
        }
    } else {
        let m = first_mutual(mimes, target.mimes)->Some_0;
        let i = choose|i: int| 0 <= i < mimes.len() && mimes[i] == m;
        assert(target.mimes.contains(source.formats[i].0));
        lemma_offered(source.formats, m, i);
    }
    if first_mutual(source.actions, target.actions) is Some {
        let a = first_mutual(source.actions, target.actions)->Some_0;
        let j = choose|j: int| 0 <= j < source.actions.len() && source.actions[j] == a;
        assert(target.actions.contains(source.actions[j]));
    }
}

proof fn lemma_offered(formats: Seq<(Seq<char>, Seq<u8>)>, mime: Seq<char>, i: int)
    requires
        0 <= i < formats.len(),
        formats[i].0 == mime,
    ensures
        crate::clipboard::bytes_of(formats, mime) is Some,
    decreases formats.len(),
{
    if formats[0].0 != mime {
        lemma_offered(formats.drop_first(), mime, i - 1);
    }
}

// ---------------------------------------------------------------------------
// Roles
// ---------------------------------------------------------------------------

fn copy_actions(actions: &[DndAction]) -> (r: Vec<DndAction>)
    ensures
        r@ == actions@,
{
    let mut out: Vec<DndAction> = Vec::new();
    let mut i: usize = 0;
    while i < actions.len()
        invariant
            i <= actions@.len(),
            out@ == actions@.take(i as int),
        decreases actions@.len() - i,
    {
        out.push(actions[i]);
        i = i + 1;
        assert(actions@.take(i as int) =~= actions@.take(i - 1).push(actions@[i - 1]));
    }
    assert(actions@.take(i as int) =~= actions@);
    out
}

/// Truncate a label to a small number of characters, appending `…` when cut.
fn truncate_label(text: &str) -> (r: String)
    ensures
        r@ == short_label(text@),
{
    let v = to_chars(text);
    if v.len() > 32 {
        let mut out = from_range(v.as_slice(), 0, 32);
        assert(v@.subrange(0, 32) =~= v@.take(32));
        out.push('…');
        out
    } else {
        text.to_owned()
    }
}

impl DragSource {
    /// A new source offering `data` with the given `actions`.
    pub fn new(data: ClipboardContent, actions: &[DndAction]) -> (r: Self)
        ensures
            r@ == (Offer { formats: data@, actions: actions@ }),
    {
        DragSource { data, actions: copy_actions(actions) }
    }

    /// A short label for the drag ghost: a text preview when the payload carries plain text,
    /// otherwise its primary MIME type.
    pub fn preview_label(&self) -> (r: String)
        ensures
            r@ == label_of(self@.formats),
    {
        match self.data.get(MIME_TEXT) {
            Some(bytes) => match decode_text(bytes) {
                Some(text) => {
                    return truncate_label(text);
                },
                None => {},
            },
            None => {},
        }
        let mimes = self.data.mime_types();
        assert(mimes@.map_values(|m: &str| m@).len() == mimes@.len());
        if mimes.len() > 0 {
            assert(mimes@.map_values(|m: &str| m@)[0] == mimes@[0]@);
            mimes[0].to_owned()
        } else {
            let none = String::new();
            assert(none@ =~= Seq::<char>::empty());
            none
        }
    }
}

impl DropTarget {
    /// A new target accepting `mimes` under `actions`.
    pub fn new(mimes: &[&str], actions: &[DndAction]) -> (r: Self)
        ensures
            r@ == (Demand { mimes: mimes@.map_values(|m: &str| m@), actions: actions@ }),
    {
        let mut owned: Vec<String> = Vec::new();
        let mut i: usize = 0;
        while i < mimes.len()
            invariant
                i <= mimes@.len(),
                owned@.len() == i,
                forall|j: int| 0 <= j < i ==> #[trigger] owned@[j]@ == mimes@[j]@,
            decreases mimes@.len() - i,
        {
            owned.push(mimes[i].to_owned());
            i = i + 1;
        }
        assert(crate::lists::texts(owned@) =~= mimes@.map_values(|m: &str| m@));
        DropTarget { accepted_mimes: owned, actions: copy_actions(actions) }
    }

    fn accepts(&self, mime: &str) -> (r: bool)
        ensures
            r == self@.mimes.contains(mime@),
    {
        let ghost mimes = crate::lists::texts(self.accepted_mimes@);
        let mut i: usize = 0;
        while i < self.accepted_mimes.len()
            invariant
                i <= self.accepted_mimes@.len(),
                mimes == crate::lists::texts(self.accepted_mimes@),
                forall|j: int| 0 <= j < i ==> #[trigger] mimes[j] != mime@,
            decreases self.accepted_mimes@.len() - i,
        {
            if str_eq(self.accepted_mimes[i].as_str(), mime) {
                assert(mimes[i as int] == mime@);
                return true;
            }
            i = i + 1;
        }
        false
    }

    fn permits(&self, action: DndAction) -> (r: bool)
        ensures
            r == self@.actions.contains(action),
    {
        let mut i: usize = 0;
        while i < self.actions.len()
            invariant
                i <= self.actions@.len(),
                forall|j: int| 0 <= j < i ==> #[trigger] self.actions@[j] != action,
            decreases self.actions@.len() - i,
        {
            if self.actions[i] == action {
                assert(self.actions@[i as int] == action);
                return true;
            }
            i = i + 1;
        }
        false
    }
}

// ---------------------------------------------------------------------------
// Session
// ---------------------------------------------------------------------------

/// The drag-and-drop session state machine.
#[derive(Debug, Clone)]
pub struct DndSession {
    source: Option<DragSource>,
    target: Option<DropTarget>,
    state: DndState,
}

impl View for DndSession {
    type V = Drag;

    closed spec fn view(&self) -> Drag {
        Drag {
            source: match self.source {
                Some(s) => Some(s@),
                None => None,
            },
            target: match self.target {
                Some(t) => Some(t@),
                None => None,
            },
            state: self.state,
        }
    }
}

impl Default for DndSession {
    fn default() -> (r: Self)
        ensures
            r@ == (Drag { source: None, target: None, state: DndState::Idle }),
    {
        DndSession::new()
    }
}

impl DndSession {
    /// A new idle session.
    pub fn new() -> (r: Self)
        ensures
            r@ == (Drag { source: None, target: None, state: DndState::Idle }),
            r@.valid(),
    {
        DndSession { source: None, target: None, state: DndState::Idle }
    }

    /// The current state.
    pub fn state(&self) -> (r: DndState)
        ensures
            r == self@.state,
    {
        self.state
    }

    /// Begin a drag with `source` (grab). Resets any prior target.
    pub fn start_drag(&mut self, source: DragSource)
        ensures
            final(self)@ == (Drag {
                source: Some(source@),
                target: None,
                state: DndState::Dragging,
            }),
            final(self)@.valid(),
    {
        self.source = Some(source);
        self.target = None;
        self.state = DndState::Dragging;
    }

    /// The pointer entered `target` (motion). No-op unless a drag is active.
    pub fn enter_target(&mut self, target: DropTarget)
        requires
            old(self)@.valid(),
        ensures
            final(self)@ == (if old(self)@.state == DndState::Dragging || old(self)@.state
                == DndState::OverTarget {
                Drag { target: Some(target@), state: DndState::OverTarget, ..old(self)@ }
            } else {
                old(self)@
            }),
            final(self)@.valid(),
    {
        if self.state == DndState::Dragging || self.state == DndState::OverTarget {
            self.target = Some(target);
            self.state = DndState::OverTarget;
        }
    }

    /// The pointer left the current target (motion).
    pub fn leave_target(&mut self)
        requires
            old(self)@.valid(),
        ensures
            final(self)@ == (if old(self)@.state == DndState::OverTarget {
                Drag { target: None, state: DndState::Dragging, ..old(self)@ }
            } else {
                old(self)@
            }),
            final(self)@.valid(),
    {
        if self.state == DndState::OverTarget {
            self.target = None;
            self.state = DndState::Dragging;
        }
    }

    /// The `(mime, action)` a drop on the current target would perform: the first source-offered
    /// MIME the target accepts, paired with the first source action the target permits. `None` if
    /// there is no drag, no target, or no mutual MIME/action.
    pub fn negotiate(&self) -> (r: Option<DndMatch>)
        requires
            self@.valid(),
        ensures
            match r {
                Some(m) => self@.outcome() == Some((m.mime@, m.action)),
                None => self@.outcome() is None,
            },
    {
        if self.state != DndState::OverTarget {
            return None;
        }
        match (&self.source, &self.target) {
            (Some(source), Some(target)) => {
                let mimes = source.data.mime_types();
                let ghost wanted = mimes_of(source@.formats);
                assert(mimes@.map_values(|m: &str| m@) == wanted);
                assert(wanted.len() == mimes@.len());
                let mut i: usize = 0;
                assert(wanted.skip(0) == wanted);
                while i < mimes.len() && !target.accepts(mimes[i])
                    invariant
                        i <= mimes@.len(),
                        wanted == mimes@.map_values(|m: &str| m@),
                        first_mutual(wanted.skip(i as int), target@.mimes) == first_mutual(
                            wanted,
                            target@.mimes,
                        ),
                    decreases mimes@.len() - i,
                {
                    proof {
                        let rest = wanted.skip(i as int);
                        assert(rest[0] == mimes@[i as int]@);
                        assert(rest.drop_first() == wanted.skip(i + 1));
                    }
                    i = i + 1;
                }
                if i == mimes.len() {
                    assert(wanted.skip(i as int).len() == 0);
                    return None;
                }
                assert(wanted.skip(i as int)[0] == mimes@[i as int]@);
                let mut k: usize = 0;
                let ghost actions = source.actions@;
                assert(actions.skip(0) == actions);
                while k < source.actions.len() && !target.permits(source.actions[k])
                    invariant
                        k <= source.actions@.len(),
                        actions == source.actions@,
                        first_mutual(actions.skip(k as int), target@.actions) == first_mutual(
                            actions,
                            target@.actions,
                        ),
                    decreases source.actions@.len() - k,
                {
                    proof {
                        let rest = actions.skip(k as int);
                        assert(rest[0] == actions[k as int]);
                        assert(rest.drop_first() == actions.skip(k + 1));
                    }
                    k = k + 1;
                }
                if k == source.actions.len() {
                    assert(actions.skip(k as int).len() == 0);
                    return None;
                }
                assert(actions.skip(k as int)[0] == actions[k as int]);
                Some(DndMatch { mime: mimes[i].to_owned(), action: source.actions[k] })
            },
            _ => None,
        }
    }

    /// Perform the drop. On a successful negotiation returns the [`DropResult`] (with the payload
    /// bytes) and moves to [`DndState::Dropped`]; otherwise the drop is rejected, the session moves
    /// to [`DndState::Cancelled`], and `None` is returned.
    pub fn drop_on_target(&mut self) -> (r: Option<DropResult>)
        requires
            old(self)@.valid(),
        ensures
            final(self)@.valid(),
            match old(self)@.outcome() {
                Some((mime, action)) => {
                    &&& final(self)@ == (Drag { state: DndState::Dropped, ..old(self)@ })
                    &&& r matches Some(d) && d.mime@ == mime && d.action == action && Some(d.bytes@)
                        == crate::clipboard::bytes_of(old(self)@.source->Some_0.formats, mime)
                },
                None => r is None && final(self)@ == (Drag {
                    state: DndState::Cancelled,
                    ..old(self)@
                }),
            },
    {
        let agreed = self.negotiate();
        match agreed {
            Some(m) => {
                proof {
                    law_drop_needs_a_shared_type_and_action(
                        self@.source->Some_0,
                        self@.target->Some_0,
                    );
                }
                let bytes = match &self.source {
                    Some(source) => match source.data.get(m.mime.as_str()) {
                        Some(b) => copy_bytes(b),
                        None => Vec::new(),
                    },
                    None => Vec::new(),
                };
                self.state = DndState::Dropped;
                Some(DropResult { mime: m.mime, action: m.action, bytes })
            },
            None => {
                self.state = DndState::Cancelled;
                None
            },
        }
    }

    /// The drag cursor for the current state, or `None` when no drag is active.
    ///
    /// While dragging without a target the cursor is [`DragCursor::Grabbing`]; over a target it
    /// reflects the negotiated action, or [`DragCursor::NoDrop`] when the target cannot accept the
    /// payload.
    pub fn cursor(&self) -> (r: Option<DragCursor>)
        requires
            self@.valid(),
        ensures
            r == self@.pointer(),
    {
        match self.state {
            DndState::Dragging => Some(DragCursor::Grabbing),
            DndState::OverTarget => match self.negotiate() {
                Some(m) => Some(m.action.drag_cursor()),
                None => Some(DragCursor::NoDrop),
            },
            DndState::Idle | DndState::Dropped | DndState::Cancelled => None,
        }
    }

    /// The visual feedback for a drag with the pointer at `(pointer_x, pointer_y)`, or `None` when
    /// no drag is active.
    ///
    /// The ghost preview is offset from the pointer by [`GHOST_OFFSET`]; `target_highlight` is set
    /// only when the pointer is over a target that would accept the drop.
    pub fn feedback(&self, pointer_x: i32, pointer_y: i32) -> (r: Option<DragFeedback>)
        requires
            self@.valid(),
        ensures
            match r {
                Some(f) => {
                    &&& self@.pointer() == Some(f.cursor)
                    &&& f.ghost_x == trailing(pointer_x)
                    &&& f.ghost_y == trailing(pointer_y)
                    &&& f.target_highlight == (self@.outcome() is Some)
                    &&& f.label@ == label_of(self@.source->Some_0.formats)
                },
                None => self@.pointer() is None,
            },
    {
        match self.cursor() {
            Some(cursor) => {
                let target_highlight = self.negotiate().is_some();
                let label = match &self.source {
                    Some(source) => source.preview_label(),
                    None => String::new(),
                };
                Some(
                    DragFeedback {
                        cursor,
                        ghost_x: trail(pointer_x),
                        ghost_y: trail(pointer_y),
                        target_highlight,
                        label,
                    },
                )
            },
            None => None,
        }
    }

    /// Cancel the drag (e.g. Escape or a drop outside any target).
    pub fn cancel(&mut self)
        ensures
            final(self)@ == (Drag {
                target: None,
                state: DndState::Cancelled,
                ..old(self)@
            }),
            final(self)@.valid(),
    {
        self.state = DndState::Cancelled;
        self.target = None;
    }
}

fn trail(n: i32) -> (r: i32)
    ensures
        r == trailing(n),
{
    if n > i32::MAX - GHOST_OFFSET {
        i32::MAX
    } else {
        n + GHOST_OFFSET
    }
}

/// Whether `x` is the first of `wanted` that is allowed.
pub open spec fn is_preferred<T>(wanted: Seq<T>, allowed: Seq<T>, x: T) -> bool {
    exists|i: int|
        {
            &&& 0 <= i < wanted.len()
            &&& #[trigger] wanted[i] == x
            &&& allowed.contains(x)
            &&& forall|j: int| 0 <= j < i ==> !allowed.contains(#[trigger] wanted[j])
        }
}

proof fn lemma_preferred<T>(wanted: Seq<T>, allowed: Seq<T>, x: T)
    requires
        first_mutual(wanted, allowed) == Some(x),
    ensures
        is_preferred(wanted, allowed, x),
    decreases wanted.len(),
{
    if allowed.contains(wanted[0]) {
        assert(wanted[0] == x);
    } else {
        let rest = wanted.drop_first();
        lemma_preferred(rest, allowed, x);
        let i = choose|i: int|
            {
                &&& 0 <= i < rest.len()
                &&& #[trigger] rest[i] == x
                &&& allowed.contains(x)
                &&& forall|j: int| 0 <= j < i ==> !allowed.contains(#[trigger] rest[j])
            };
        assert(wanted[i + 1] == x);
        assert forall|j: int| 0 <= j < i + 1 implies !allowed.contains(#[trigger] wanted[j]) by {
            if j > 0 {
                assert(rest[j - 1] == wanted[j]);
            }
        }
    }
}

/// The preference of the source decides: the drop is carried out with the first of its MIME types,
/// and the first of its actions, that the target accepts.
pub proof fn law_the_source_prefers(source: Offer, target: Demand)
    ensures
        agreement(source, target) matches Some((mime, action)) ==> is_preferred(
            mimes_of(source.formats),
            target.mimes,
            mime,
        ) && is_preferred(source.actions, target.actions, action),
{
    if let Some((mime, action)) = agreement(source, target) {
        lemma_preferred(mimes_of(source.formats), target.mimes, mime);
        lemma_preferred(source.actions, target.actions, action);
    }
}

/// A long label is cut off behind its thirty-second character, and an ellipsis says so; a short one is
/// shown whole.
pub proof fn law_long_labels_are_cut_off(text: Seq<char>)
    ensures
        text.len() <= 32 ==> short_label(text) == text,
        text.len() > 32 ==> short_label(text).len() == 33 && short_label(text).last() == '…'
            && short_label(text).drop_last() == text.take(32),
{
    if text.len() > 32 {
        assert(short_label(text).drop_last() =~= text.take(32));
    }
}

} // verus!
