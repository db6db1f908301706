//! Display configuration panel for Settings.
//!
//! [`DisplaySettingsPanel`] is the Settings-app view over the outputs of the compositor. It turns a
//! working copy of the output set into a render-ready view model ([`OutputRow`] per monitor, with
//! its selectable modes, scale, rotation, position, and primary/enabled flags), applies the user's
//! edits to the copy, and validates the extended-desktop layout fail-closed: at least one enabled
//! output, no overlapping outputs.
//!
//! The rotation `R` is the compositor's; the panel carries it through. Which scales are supported,
//! and how many logical pixels an output has in a given mode, scale and rotation, the caller says.

use vstd::prelude::*;

verus! {

/// Identifies an output.
#[derive(Debug, Clone, Copy, PartialEq, Eq, Hash, PartialOrd, Ord, Structural)]
pub struct OutputId(pub u32);

/// An edit names something that does not exist.
#[derive(Debug, Clone, Copy, PartialEq, Eq, Structural)]
#[non_exhaustive]
pub enum DisplayError {
    /// No output has this id.
    UnknownOutput(OutputId),
    /// The output has no mode of this index.
    InvalidMode,
}

/// Errors surfaced by the display settings panel.
#[derive(Debug, Clone, Copy, PartialEq, Eq, Structural)]
#[non_exhaustive]
pub enum PanelError {
    /// An edit of an unknown output or mode.
    Display(DisplayError),
    /// The requested scale percentage is not a supported factor.
    InvalidScale,
    /// Applying the configuration would leave no output enabled.
    NoEnabledOutput,
    /// Two or more enabled outputs overlap in the global layout.
    OverlappingLayout,
}

impl From<DisplayError> for PanelError {
    fn from(e: DisplayError) -> (r: Self) {
        PanelError::Display(e)
    }
}

impl vstd::std_specs::convert::FromSpecImpl<DisplayError> for PanelError {
    open spec fn obeys_from_spec() -> bool {
        true
    }

    open spec fn from_spec(e: DisplayError) -> Self {
        PanelError::Display(e)
    }
}

impl PanelError {
    /// The message shown to a user; `cause` is the message of a [`DisplayError`].
    pub fn message(&self, cause: &str) -> (r: String)
        ensures
            r@ == "display settings: "@ + (match self {
                PanelError::Display(_) => cause@,
                PanelError::InvalidScale => "unsupported scale"@,
                PanelError::NoEnabledOutput => "at least one output must be enabled"@,
                PanelError::OverlappingLayout => "outputs overlap"@,
            }),
    {
        let mut out = "display settings: ".to_owned();
        match self {
            PanelError::Display(_) => {
                out.push_str(cause);
            },
            PanelError::InvalidScale => {
                out.push_str("unsupported scale");
            },
            PanelError::NoEnabledOutput => {
                out.push_str("at least one output must be enabled");
            },
            PanelError::OverlappingLayout => {
                out.push_str("outputs overlap");
            },
        }
        out
    }
}

/// A mode of an output.
#[derive(Debug, Clone, Copy, PartialEq, Eq, Structural)]
pub struct OutputMode {
    /// Device width in pixels.
    pub width: u32,
    /// Device height in pixels.
    pub height: u32,
    /// Refresh rate in milli-hertz.
    pub refresh_mhz: u32,
}

/// What the compositor reports of one output.
#[derive(Debug, PartialEq, Eq)]
pub struct OutputState<R> {
    /// The output's id.
    pub id: OutputId,
    /// Connector name.
    pub name: String,
    /// Whether the output is enabled (part of the desktop).
    pub enabled: bool,
    /// The modes that the output supports.
    pub modes: Vec<OutputMode>,
    /// The active mode.
    pub active: OutputMode,
    /// Current scale as a percentage (`100` = 1×).
    pub scale_percent: u32,
    /// Current rotation.
    pub rotation: R,
    /// Global-space top-left position.
    pub position: (i32, i32),
    /// Current logical extent.
    pub logical_size: (u32, u32),
}

/// Whether two outputs are in the same state.
pub open spec fn alike<R>(a: OutputState<R>, b: OutputState<R>) -> bool {
    &&& a.id == b.id
    &&& a.name@ == b.name@
    &&& a.enabled == b.enabled
    &&& a.modes@ == b.modes@
    &&& a.active == b.active
    &&& a.scale_percent == b.scale_percent
    &&& a.rotation == b.rotation
    &&& a.position == b.position
    &&& a.logical_size == b.logical_size
}

impl<R: Copy> Clone for OutputState<R> {
    fn clone(&self) -> (r: Self)
        ensures
            alike(r, *self),
    {
        let modes = self.modes.clone();
        assert(modes@ =~= self.modes@);
        OutputState {
            id: self.id,
            name: self.name.clone(),
            enabled: self.enabled,
            modes,
            active: self.active,
            scale_percent: self.scale_percent,
            rotation: self.rotation,
            position: self.position,
            logical_size: self.logical_size,
        }
    }
}

/// A selectable mode option in a [`OutputRow`].
#[derive(Debug, Clone, Copy, PartialEq, Eq, Structural)]
pub struct ModeOption {
    /// Index into the output's mode list.
    pub index: usize,
    /// Device width in pixels.
    pub width: u32,
    /// Device height in pixels.
    pub height: u32,
    /// Refresh rate in milli-hertz.
    pub refresh_mhz: u32,
    /// Whether this is the output's active mode.
    pub is_active: bool,
}

/// A per-output row in the display settings view model.
#[derive(Debug, PartialEq, Eq)]
pub struct OutputRow<R> {
    /// The output's id.
    pub id: OutputId,
    /// Connector name.
    pub name: String,
    /// Whether the output is enabled (part of the desktop).
    pub enabled: bool,
    /// Whether this is the primary output.
    pub is_primary: bool,
    /// Selectable modes.
    pub modes: Vec<ModeOption>,
    /// Current scale as a percentage (`100` = 1×).
    pub scale_percent: u32,
    /// Current rotation.
    pub rotation: R,
    /// Global-space top-left position.
    pub position: (i32, i32),
    /// Current logical extent.
    pub logical_size: (u32, u32),
}

impl<R: Copy> Clone for OutputRow<R> {
    fn clone(&self) -> (r: Self)
        ensures
            r.id == self.id,
            r.name@ == self.name@,
            r.enabled == self.enabled,
            r.is_primary == self.is_primary,
            r.modes@ == self.modes@,
            r.scale_percent == self.scale_percent,
            r.rotation == self.rotation,
            r.position == self.position,
            r.logical_size == self.logical_size,
    {
        let modes = self.modes.clone();
        assert(modes@ =~= self.modes@);
        OutputRow {
            id: self.id,
            name: self.name.clone(),
            enabled: self.enabled,
            is_primary: self.is_primary,
            modes,
            scale_percent: self.scale_percent,
            rotation: self.rotation,
            position: self.position,
            logical_size: self.logical_size,
        }
    }
}

/// The options for some modes: one for each, in order, the active one marked.
pub open spec fn options(modes: Seq<OutputMode>, active: OutputMode) -> Seq<ModeOption> {
    Seq::new(
        modes.len(),
        |i: int|
            ModeOption {
                index: i as usize,
                width: modes[i].width,
                height: modes[i].height,
                refresh_mhz: modes[i].refresh_mhz,
                is_active: modes[i] == active,
            },
    )
}

/// Whether a row shows an output.
pub open spec fn shows<R>(row: OutputRow<R>, o: OutputState<R>, primary: Option<OutputId>) -> bool {
    &&& row.id == o.id
    &&& row.name@ == o.name@
    &&& row.enabled == o.enabled
    &&& row.is_primary == (primary == Some(o.id))
    &&& row.modes@ == options(o.modes@, o.active)
    &&& row.scale_percent == o.scale_percent
    &&& row.rotation == o.rotation
    &&& row.position == o.position
    &&& row.logical_size == o.logical_size
}

/// Whether two outputs are enabled and share a pixel.
pub open spec fn clash<R>(a: OutputState<R>, b: OutputState<R>) -> bool {
    &&& a.enabled
    &&& b.enabled
    &&& a.position.0 < b.position.0 + b.logical_size.0
    &&& b.position.0 < a.position.0 + a.logical_size.0
    &&& a.position.1 < b.position.1 + b.logical_size.1
    &&& b.position.1 < a.position.1 + a.logical_size.1
    &&& a.logical_size.0 > 0 && a.logical_size.1 > 0
    &&& b.logical_size.0 > 0 && b.logical_size.1 > 0
}

/// Whether some output is enabled.
pub open spec fn any_enabled<R>(s: Seq<OutputState<R>>) -> bool {
    exists|i: int| 0 <= i < s.len() && (#[trigger] s[i]).enabled
}

/// Whether two enabled outputs overlap.
pub open spec fn any_clash<R>(s: Seq<OutputState<R>>) -> bool {
    exists|i: int, j: int| 0 <= i < j < s.len() && clash(#[trigger] s[i], #[trigger] s[j])
}

/// Two outputs clash exactly if some pixel of the desktop belongs to both.
pub proof fn law_clash_is_a_shared_pixel<R>(a: OutputState<R>, b: OutputState<R>)
    requires
        a.enabled,
        b.enabled,
    ensures
        clash(a, b) <==> exists|x: int, y: int| #[trigger] covers(a, x, y) && covers(b, x, y),
{
    if clash(a, b) {
        let x = if a.position.0 < b.position.0 {
            b.position.0 as int
        } else {
            a.position.0 as int
        };
        let y = if a.position.1 < b.position.1 {
            b.position.1 as int
        } else {
            a.position.1 as int
        };
        assert(covers(a, x, y) && covers(b, x, y));
    }
}

/// Whether a pixel of the desktop belongs to an output.
pub open spec fn covers<R>(o: OutputState<R>, x: int, y: int) -> bool {
    o.position.0 <= x < o.position.0 + o.logical_size.0 && o.position.1 <= y < o.position.1
        + o.logical_size.1
}

/// Whether some output has an id.
pub open spec fn known<R>(s: Seq<OutputState<R>>, id: OutputId) -> bool {
    exists|i: int| 0 <= i < s.len() && (#[trigger] s[i]).id == id
}

/// Whether `i` is the first output with an id.
pub open spec fn has_id_at<R>(s: Seq<OutputState<R>>, id: OutputId, i: int) -> bool {
    0 <= i < s.len() && s[i].id == id && forall|j: int| 0 <= j < i ==> (#[trigger] s[j]).id != id
}

/// Whether an output is enabled and at the global origin.
pub open spec fn at_origin<R>(o: OutputState<R>) -> bool {
    o.enabled && o.position == (0i32, 0i32)
}

/// The primary output once some outputs are as given: the first that is enabled and at the global
/// origin, or else the one that was primary before.
pub open spec fn promoted<R>(s: Seq<OutputState<R>>, before: Option<OutputId>) -> Option<OutputId>
    decreases s.len(),
{
    if s.len() == 0 {
        before
    } else if at_origin(s[0]) {
        Some(s[0].id)
    } else {
        promoted(s.drop_first(), before)
    }
}

/// Whether the logical size is what `extent` gives for the mode, scale and rotation.
pub open spec fn has_extent<R, X: Fn(OutputMode, u32, R) -> (u32, u32)>(
    o: OutputState<R>,
    extent: X,
) -> bool {
    call_ensures(extent, (o.active, o.scale_percent, o.rotation), o.logical_size)
}

/// The width of the enabled outputs side by side.
pub open spec fn width_of<R>(s: Seq<OutputState<R>>) -> nat
    decreases s.len(),
{
    if s.len() == 0 {
        0
    } else {
        width_of(s.drop_last()) + if s.last().enabled {
            s.last().logical_size.0 as nat
        } else {
            0
        }
    }
}

/// The outputs with the enabled ones side by side along the top edge.
pub open spec fn arranged<R>(s: Seq<OutputState<R>>) -> Seq<OutputState<R>> {
    Seq::new(
        s.len(),
        |i: int|
            if s[i].enabled {
                OutputState { position: (width_of(s.take(i)) as i32, 0), ..s[i] }
            } else {
                s[i]
            },
    )
}

proof fn lemma_width_prefix<R>(s: Seq<OutputState<R>>, i: int)
    requires
        0 <= i <= s.len(),
    ensures
        width_of(s.take(i)) <= width_of(s),
    decreases s.len() - i,
{
    if i < s.len() {
        lemma_width_prefix(s, i + 1);
        assert(s.take(i + 1).drop_last() == s.take(i));
    } else {
        assert(s.take(i) == s);
    }
}

/// Outputs side by side never overlap, so the arrange button always repairs a layout.
pub proof fn law_arranging_removes_overlap<R>(s: Seq<OutputState<R>>)
    requires
        width_of(s) <= i32::MAX,
    ensures
        !any_clash(arranged(s)),
{
    assert forall|i: int, j: int| 0 <= i < j < s.len() implies !clash(
        #[trigger] arranged(s)[i],
        #[trigger] arranged(s)[j],
    ) by {
        if s[i].enabled && s[j].enabled {
            let t = s.take(j);
            lemma_width_prefix(s, j);
            lemma_width_prefix(s, i);
            lemma_width_prefix(t, i + 1);
            assert(t.take(i + 1) == s.take(i + 1));
            assert(s.take(i + 1).drop_last() == s.take(i));
        }
    }
}

/// Arranging leaves no gap: an enabled output begins where the enabled outputs before it end.
pub proof fn law_arranging_leaves_no_gap<R>(s: Seq<OutputState<R>>, i: int)
    requires
        width_of(s) <= i32::MAX,
        0 <= i < s.len(),
        s[i].enabled,
    ensures
        arranged(s)[i].position.0 == width_of(s.take(i)),
        arranged(s)[i].position.1 == 0,
{
    lemma_width_prefix(s, i);
}

proof fn lemma_promoted<R>(s: Seq<OutputState<R>>, before: Option<OutputId>, i: int)
    requires
        0 <= i < s.len(),
        at_origin(s[i]),
        forall|j: int| 0 <= j < i ==> !at_origin(#[trigger] s[j]),
    ensures
        promoted(s, before) == Some(s[i].id),
    decreases s.len(),
{
    if i > 0 {
        assert(!at_origin(s[0]));
        let t = s.drop_first();
        assert forall|j: int| 0 <= j < i - 1 implies !at_origin(#[trigger] t[j]) by {
            assert(t[j] == s[j + 1]);
        }
        lemma_promoted(t, before, i - 1);
    }
}

proof fn lemma_no_width<R>(s: Seq<OutputState<R>>)
    requires
        forall|j: int| 0 <= j < s.len() ==> !(#[trigger] s[j]).enabled,
    ensures
        width_of(s) == 0,
    decreases s.len(),
{
    if s.len() > 0 {
        let t = s.drop_last();
        assert forall|j: int| 0 <= j < t.len() implies !(#[trigger] t[j]).enabled by {
            assert(t[j] == s[j]);
        }
        lemma_no_width(t);
    }
}

/// Arranging makes the first enabled output the primary one: it is the one at the global origin.
pub proof fn law_arranging_makes_the_first_primary<R>(
    s: Seq<OutputState<R>>,
    before: Option<OutputId>,
    i: int,
)
    requires
        0 <= i < s.len(),
        s[i].enabled,
        forall|j: int| 0 <= j < i ==> !(#[trigger] s[j]).enabled,
    ensures
        at_origin(arranged(s)[i]),
        promoted(arranged(s), before) == Some(s[i].id),
{
    let t = s.take(i);
    assert forall|j: int| 0 <= j < t.len() implies !(#[trigger] t[j]).enabled by {
        assert(t[j] == s[j]);
    }
    lemma_no_width(t);
    assert forall|j: int| 0 <= j < i implies !at_origin(#[trigger] arranged(s)[j]) by {
        assert(!s[j].enabled);
    }
    lemma_promoted(arranged(s), before, i);
}

/// The Settings display panel: a view over a working copy of the output set.
#[derive(Debug)]
pub struct DisplaySettingsPanel<R> {
    outputs: Vec<OutputState<R>>,
    primary: Option<OutputId>,
}

fn mode_options(modes: &Vec<OutputMode>, active: OutputMode) -> (r: Vec<ModeOption>)
    ensures
        r@ == options(modes@, active),
{
    let mut out: Vec<ModeOption> = Vec::new();
    let ghost goal = options(modes@, active);
    let mut i: usize = 0;
    while i < modes.len()
        invariant
            i <= modes@.len(),
            goal == options(modes@, active),
            out@ == goal.take(i as int),
        decreases modes@.len() - i,
    {
        let m = modes[i];
        out.push(
            ModeOption {
                index: i,
                width: m.width,
                height: m.height,
                refresh_mhz: m.refresh_mhz,
                is_active: m == active,
            },
        );
        i = i + 1;
        assert(goal.take(i as int) =~= goal.take(i - 1).push(goal[i - 1]));
    }
    assert(goal.take(i as int) =~= goal);
    out
}

fn do_clash<R>(a: &OutputState<R>, b: &OutputState<R>) -> (r: bool)
    ensures
        r == clash(*a, *b),
{
    let (ax, ay) = (a.position.0 as i64, a.position.1 as i64);
    let (bx, by) = (b.position.0 as i64, b.position.1 as i64);
    let (aw, ah) = (a.logical_size.0 as i64, a.logical_size.1 as i64);
    let (bw, bh) = (b.logical_size.0 as i64, b.logical_size.1 as i64);
    a.enabled && b.enabled && ax < bx + bw && bx < ax + aw && ay < by + bh && by < ay + ah && aw > 0
        && ah > 0 && bw > 0 && bh > 0
}

impl<R: Copy> Clone for DisplaySettingsPanel<R> {
    fn clone(&self) -> (r: Self)
        ensures
            r.states().len() == self.states().len(),
            forall|i: int|
                0 <= i < r.states().len() ==> alike(#[trigger] r.states()[i], self.states()[i]),
            r.chief() == self.chief(),
    {
        let mut outputs: Vec<OutputState<R>> = Vec::new();
        let mut i: usize = 0;
        while i < self.outputs.len()
            invariant
                i <= self.outputs@.len(),
                outputs@.len() == i,
                forall|j: int| 0 <= j < i ==> alike(#[trigger] outputs@[j], self.outputs@[j]),
            decreases self.outputs@.len() - i,
        {
            outputs.push(self.outputs[i].clone());
            i = i + 1;
        }
        DisplaySettingsPanel { outputs, primary: self.primary }
    }
}

impl<R: Copy> Default for DisplaySettingsPanel<R> {
    /// A panel without outputs.
    fn default() -> (r: Self)
        ensures
            r.states() == Seq::<OutputState<R>>::empty(),
            r.chief() is None,
    {
        DisplaySettingsPanel { outputs: Vec::new(), primary: None }
    }
}

impl<R: Copy> DisplaySettingsPanel<R> {
    /// The outputs.
    pub closed spec fn states(&self) -> Seq<OutputState<R>> {
        self.outputs@
    }

    /// The primary output: after each edit the enabled output at the global origin, the first of
    /// several, and while there is none the one that was primary before.
    pub closed spec fn chief(&self) -> Option<OutputId> {
        self.primary
    }

    /// Wrap a working copy of the compositor's outputs, of which `primary` is the primary one.
    pub fn new(outputs: Vec<OutputState<R>>, primary: Option<OutputId>) -> (r: Self)
        ensures
            r.states() == outputs@,
            r.chief() == primary,
    {
        DisplaySettingsPanel { outputs, primary }
    }

    /// Build the view model: one [`OutputRow`] per output, in registration order.
    pub fn rows(&self) -> (r: Vec<OutputRow<R>>)
        ensures
            r@.len() == self.states().len(),
            forall|i: int|
                0 <= i < r@.len() ==> shows(#[trigger] r@[i], self.states()[i], self.chief()),
    {
        let mut out: Vec<OutputRow<R>> = Vec::new();
        let mut i: usize = 0;
        while i < self.outputs.len()
            invariant
                i <= self.outputs@.len(),
                out@.len() == i,
                forall|j: int|
                    0 <= j < i ==> shows(#[trigger] out@[j], self.outputs@[j], self.primary),
            decreases self.outputs@.len() - i,
        {
            let o = &self.outputs[i];
            let is_primary = match self.primary {
                Some(p) => p == o.id,
                None => false,
            };
            out.push(
                OutputRow {
                    id: o.id,
                    name: o.name.clone(),
                    enabled: o.enabled,
                    is_primary,
                    modes: mode_options(&o.modes, o.active),
                    scale_percent: o.scale_percent,
                    rotation: o.rotation,
                    position: o.position,
                    logical_size: o.logical_size,
                },
            );
            i = i + 1;
        }
        out
    }

    /// The position of the output with an id.
    fn find(&self, id: OutputId) -> (r: Option<usize>)
        ensures
            match r {
                Some(i) => i < self.states().len() && has_id_at(self.states(), id, i as int),
                None => !known(self.states(), id),
            },
    {
        let mut i: usize = 0;
        while i < self.outputs.len()
            invariant
                i <= self.outputs@.len(),
                forall|j: int| 0 <= j < i ==> (#[trigger] self.outputs@[j]).id != id,
            decreases self.outputs@.len() - i,
        {
            if self.outputs[i].id == id {
                return Some(i);
            }
            i = i + 1;
        }
        None
    }

    /// Makes the enabled output at the global origin the primary one, if there is one.
    fn promote(&mut self)
        ensures
            final(self).outputs == old(self).outputs,
            final(self).primary == promoted(old(self).outputs@, old(self).primary),
    {
        let ghost all = self.outputs@;
        let mut i: usize = 0;
        assert(all.skip(0) == all);
        while i < self.outputs.len()
            invariant
                i <= self.outputs@.len(),
                all == self.outputs@,
                *self == *old(self),
                promoted(all, self.primary) == promoted(all.skip(i as int), self.primary),
            decreases self.outputs@.len() - i,
        {
            let o = &self.outputs[i];
            assert(all.skip(i as int)[0] == all[i as int]);
            assert(all.skip(i as int).drop_first() == all.skip(i + 1));
            if o.enabled && o.position.0 == 0 && o.position.1 == 0 {
                self.primary = Some(o.id);
                return;
            }
            i = i + 1;
        }
    }

    /// Select an output's active mode; `extent` gives the logical size of a mode, scale and
    /// rotation.
    ///
    /// # Errors
    ///
    /// [`PanelError::Display`] if the output or mode index is invalid.
    pub fn select_mode<X: Fn(OutputMode, u32, R) -> (u32, u32)>(
        &mut self,
        id: OutputId,
        idx: usize,
        extent: &X,
    ) -> (r: Result<(), PanelError>)
        requires
            forall|m: OutputMode, p: u32, t: R| call_requires(*extent, (m, p, t)),
        ensures
            final(self).chief() == (if r is Ok {
                promoted(final(self).states(), old(self).chief())
            } else {
                old(self).chief()
            }),
            r is Err ==> final(self).states() == old(self).states(),
            match r {
                Ok(_) => exists|i: int| #[trigger]
                    has_id_at(old(self).states(), id, i) && {
                        let o = old(self).states()[i];
                        let n = final(self).states()[i];
                        &&& idx < o.modes@.len()
                        &&& n == (OutputState {
                            active: o.modes@[idx as int],
                            logical_size: n.logical_size,
                            ..o
                        })
                        &&& has_extent(n, *extent)
                        &&& final(self).states() == old(self).states().update(i, n)
                    },
                Err(PanelError::Display(DisplayError::UnknownOutput(u))) => u == id && !known(
                    old(self).states(),
                    id,
                ),
                Err(e) => e == PanelError::Display(DisplayError::InvalidMode) && exists|i: int|
                    #[trigger] has_id_at(old(self).states(), id, i) && idx >= old(
                        self,
                    ).states()[i].modes@.len(),
            },
    {
        let i: usize = match self.find(id) {
            Some(i) => i,
            None => {
                return Err(PanelError::Display(DisplayError::UnknownOutput(id)));
            },
        };
        if idx >= self.outputs[i].modes.len() {
            return Err(PanelError::Display(DisplayError::InvalidMode));
        }
        let m = self.outputs[i].modes[idx];
        let e = extent(m, self.outputs[i].scale_percent, self.outputs[i].rotation);
        let o = &mut self.outputs[i];
        o.active = m;
        o.logical_size = e;
        self.promote();
        Ok(())
    }

    /// Set an output's scale from a percentage (`100` = 1×, `150` = 1.5×); `supported` tells
    /// whether the compositor has such a scale.
    ///
    /// # Errors
    ///
    /// [`PanelError::InvalidScale`] if the percentage is not a supported factor;
    /// [`PanelError::Display`] if the output does not exist.
    pub fn set_scale_percent<S: Fn(u32) -> bool, X: Fn(OutputMode, u32, R) -> (u32, u32)>(
        &mut self,
        id: OutputId,
        percent: u32,
        supported: &S,
        extent: &X,
    ) -> (r: Result<(), PanelError>)
        requires
            call_requires(*supported, (percent,)),
            forall|m: OutputMode, p: u32, t: R| call_requires(*extent, (m, p, t)),
        ensures
            final(self).chief() == (if r is Ok {
                promoted(final(self).states(), old(self).chief())
            } else {
                old(self).chief()
            }),
            r is Err ==> final(self).states() == old(self).states(),
            match r {
                Ok(_) => call_ensures(*supported, (percent,), true) && exists|i: int| #[trigger]
                    has_id_at(old(self).states(), id, i) && {
                        let o = old(self).states()[i];
                        let n = final(self).states()[i];
                        &&& n == (OutputState {
                            scale_percent: percent,
                            logical_size: n.logical_size,
                            ..o
                        })
                        &&& has_extent(n, *extent)
                        &&& final(self).states() == old(self).states().update(i, n)
                    },
                Err(PanelError::InvalidScale) => call_ensures(*supported, (percent,), false),
                Err(e) => call_ensures(*supported, (percent,), true) && e == PanelError::Display(
                    DisplayError::UnknownOutput(id),
                ) && !known(old(self).states(), id),
            },
    {
        if !supported(percent) {
            return Err(PanelError::InvalidScale);
        }
        let i: usize = match self.find(id) {
            Some(i) => i,
            None => {
                return Err(PanelError::Display(DisplayError::UnknownOutput(id)));
            },
        };
        let e = extent(self.outputs[i].active, percent, self.outputs[i].rotation);
        let o = &mut self.outputs[i];
        o.scale_percent = percent;
        o.logical_size = e;
        self.promote();
        Ok(())
    }

    /// Set an output's rotation.
    ///
    /// # Errors
    ///
    /// [`PanelError::Display`] if the output does not exist.
    pub fn set_rotation<X: Fn(OutputMode, u32, R) -> (u32, u32)>(
        &mut self,
        id: OutputId,
        rotation: R,
        extent: &X,
    ) -> (r: Result<(), PanelError>)
        requires
            forall|m: OutputMode, p: u32, t: R| call_requires(*extent, (m, p, t)),
        ensures
            final(self).chief() == (if r is Ok {
                promoted(final(self).states(), old(self).chief())
            } else {
                old(self).chief()
            }),
            match r {
                Ok(_) => exists|i: int| #[trigger]
                    has_id_at(old(self).states(), id, i) && {
                        let o = old(self).states()[i];
                        let n = final(self).states()[i];
                        &&& n == (OutputState { rotation, logical_size: n.logical_size, ..o })
                        &&& has_extent(n, *extent)
                        &&& final(self).states() == old(self).states().update(i, n)
                    },
                Err(e) => e == PanelError::Display(DisplayError::UnknownOutput(id)) && !known(
                    old(self).states(),
                    id,
                ) && final(self).states() == old(self).states(),
            },
    {
        let i: usize = match self.find(id) {
            Some(i) => i,
            None => {
                return Err(PanelError::Display(DisplayError::UnknownOutput(id)));
            },
        };
        let e = extent(self.outputs[i].active, self.outputs[i].scale_percent, rotation);
        let o = &mut self.outputs[i];
        o.rotation = rotation;
        o.logical_size = e;
        self.promote();
        Ok(())
    }

    /// Move an output to a new global-space position.
    ///
    /// # Errors
    ///
    /// [`PanelError::Display`] if the output does not exist.
    pub fn move_output(&mut self, id: OutputId, x: i32, y: i32) -> (r: Result<(), PanelError>)
        ensures
            final(self).chief() == (if r is Ok {
                promoted(final(self).states(), old(self).chief())
            } else {
                old(self).chief()
            }),
            match r {
                Ok(_) => exists|i: int| #[trigger]
                    has_id_at(old(self).states(), id, i) && final(self).states() == old(
                        self,
                    ).states().update(
                        i,
                        OutputState { position: (x, y), ..old(self).states()[i] },
                    ),
                Err(e) => e == PanelError::Display(DisplayError::UnknownOutput(id)) && !known(
                    old(self).states(),
                    id,
                ) && final(self).states() == old(self).states(),
            },
    {
        let i: usize = match self.find(id) {
            Some(i) => i,
            None => {
                return Err(PanelError::Display(DisplayError::UnknownOutput(id)));
            },
        };
        let o = &mut self.outputs[i];
        o.position = (x, y);
        self.promote();
        Ok(())
    }

    /// Enable or disable an output.
    ///
    /// # Errors
    ///
    /// [`PanelError::Display`] if the output does not exist.
    pub fn set_enabled(&mut self, id: OutputId, enabled: bool) -> (r: Result<(), PanelError>)
        ensures
            final(self).chief() == (if r is Ok {
                promoted(final(self).states(), old(self).chief())
            } else {
                old(self).chief()
            }),
            match r {
                Ok(_) => exists|i: int| #[trigger]
                    has_id_at(old(self).states(), id, i) && final(self).states() == old(
                        self,
                    ).states().update(i, OutputState { enabled, ..old(self).states()[i] }),
                Err(e) => e == PanelError::Display(DisplayError::UnknownOutput(id)) && !known(
                    old(self).states(),
                    id,
                ) && final(self).states() == old(self).states(),
            },
    {
        let i: usize = match self.find(id) {
            Some(i) => i,
            None => {
                return Err(PanelError::Display(DisplayError::UnknownOutput(id)));
            },
        };
        let o = &mut self.outputs[i];
        o.enabled = enabled;
        self.promote();
        Ok(())
    }

    /// Re-pack the enabled outputs left-to-right into a gap-free extended desktop (the "arrange
    /// displays" button): in registration order, along the top edge.
    pub fn arrange_horizontal(&mut self)
        requires
            width_of(old(self).states()) <= i32::MAX,
        ensures
            final(self).chief() == promoted(final(self).states(), old(self).chief()),
            final(self).states() == arranged(old(self).states()),
    {
        let ghost before = self.outputs@;
        let len: usize = self.outputs.len();
        let mut x: i32 = 0;
        let mut i: usize = 0;
        assert(before.take(0) =~= Seq::empty());
        while i < len
            invariant
                i <= len,
                len == before.len(),
                len == self.outputs@.len(),
                self.primary == old(self).primary,
                before == old(self).outputs@,
                x == width_of(before.take(i as int)),
                width_of(before) <= i32::MAX,
                forall|j: int| i <= j < len ==> (#[trigger] self.outputs@[j]) == before[j],
                forall|j: int| 0 <= j < i ==> (#[trigger] self.outputs@[j]) == arranged(before)[j],
            decreases len - i,
        {
            proof {
                lemma_width_prefix(before, i + 1);
                assert(before.take(i + 1).drop_last() == before.take(i as int));
            }
            let o = &mut self.outputs[i];
            if o.enabled {
                o.position = (x, 0);
                x = x + o.logical_size.0 as i32;
            }
            i = i + 1;
        }
        assert(before.take(len as int) == before);
        assert(self.outputs@ =~= arranged(before));
        self.promote();
    }

    /// Validate the current configuration before it is committed.
    ///
    /// # Errors
    ///
    /// [`PanelError::NoEnabledOutput`] if nothing is enabled; [`PanelError::OverlappingLayout`] if
    /// two enabled outputs overlap.
    pub fn validate(&self) -> (r: Result<(), PanelError>)
        ensures
            r == (if !any_enabled(self.states()) {
                Err::<(), PanelError>(PanelError::NoEnabledOutput)
            } else if any_clash(self.states()) {
                Err(PanelError::OverlappingLayout)
            } else {
                Ok(())
            }),
    {
        let mut enabled = false;
        let mut i: usize = 0;
        while i < self.outputs.len()
            invariant
                i <= self.outputs@.len(),
                enabled == exists|j: int| 0 <= j < i && (#[trigger] self.outputs@[j]).enabled,
            decreases self.outputs@.len() - i,
        {
            if self.outputs[i].enabled {
                assert(self.outputs@[i as int].enabled);
                enabled = true;
            }
            i = i + 1;
        }
        if !enabled {
            return Err(PanelError::NoEnabledOutput);
        }
        let mut j: usize = 0;
        while j < self.outputs.len()
            invariant
                j <= self.outputs@.len(),
                forall|p: int, q: int|
                    0 <= p < q < j ==> !clash(
                        #[trigger] self.outputs@[p],
                        #[trigger] self.outputs@[q],
                    ),
                any_enabled(self.outputs@),
            decreases self.outputs@.len() - j,
        {
            let mut k: usize = 0;
            while k < j
                invariant
                    k <= j < self.outputs@.len(),
                    forall|p: int|
                        0 <= p < k ==> !clash(
                            #[trigger] self.outputs@[p],
                            self.outputs@[j as int],
                        ),
                    any_enabled(self.outputs@),
                decreases j - k,
            {
                if do_clash(&self.outputs[k], &self.outputs[j]) {
                    assert(clash(self.outputs@[k as int], self.outputs@[j as int]));
                    return Err(PanelError::OverlappingLayout);
                }
                k = k + 1;
            }
            j = j + 1;
        }
        Ok(())
    }
}

} // verus!
