//! Dock / taskbar model with running-app indicators.
//!
//! The dock shows pinned apps (always) plus any running-but-unpinned app, each carrying a running
//! indicator (window count) and an attention flag. Pin/unpin and launch/stop transitions keep the
//! dock in sync with the window manager.

use vstd::prelude::*;

use crate::canvas::Canvas;
use crate::color::Palette;
use crate::geometry::Rect;
use crate::paint::{paint, DrawOp, Effects};
use crate::strings::{from_chars, str_eq, to_chars, to_uppercase};
use crate::text::measure_text;
use crate::theme::{Shadow, Theme};

verus! {

/// One dock item: a pinned and/or running app.
#[derive(Debug, Clone, PartialEq, Eq)]
pub struct DockApp {
    /// Application id (matches [`crate::launcher::AppEntry::id`]).
    pub id: String,
    /// Display name.
    pub name: String,
    /// Whether the app is pinned (shown even when not running).
    pub pinned: bool,
    /// Whether the app is currently running.
    pub running: bool,
    /// Number of open windows (the running indicator).
    pub windows: u32,
    /// Whether the app requests user attention.
    pub attention: bool,
}

/// What a dock item says.
#[verifier::ext_equal]
pub struct App {
    /// Application id.
    pub id: Seq<char>,
    /// Display name.
    pub name: Seq<char>,
    /// Whether the app is pinned.
    pub pinned: bool,
    /// Whether the app is running.
    pub running: bool,
    /// Number of open windows.
    pub windows: u32,
    /// Whether the app requests attention.
    pub attention: bool,
}

impl View for DockApp {
    type V = App;

    open spec fn view(&self) -> App {
        App {
            id: self.id@,
            name: self.name@,
            pinned: self.pinned,
            running: self.running,
            windows: self.windows,
            attention: self.attention,
        }
    }
}

/// What the items of a list say.
pub open spec fn apps_of(items: Seq<DockApp>) -> Seq<App> {
    items.map_values(|a: DockApp| a@)
}

/// An app that is neither pinned nor running.
pub open spec fn fresh(id: Seq<char>, name: Seq<char>) -> App {
    App { id, name, pinned: false, running: false, windows: 0, attention: false }
}

/// The position of the first app with an id, or the number of apps.
pub open spec fn app_at(apps: Seq<App>, id: Seq<char>) -> nat
    decreases apps.len(),
{
    if apps.len() == 0 || apps[0].id == id {
        0
    } else {
        1 + app_at(apps.drop_first(), id)
    }
}

/// The position of the first occurrence of an id, or the number of ids.
pub open spec fn id_at(ids: Seq<Seq<char>>, id: Seq<char>) -> nat
    decreases ids.len(),
{
    if ids.len() == 0 || ids[0] == id {
        0
    } else {
        1 + id_at(ids.drop_first(), id)
    }
}

/// What a dock holds: its apps, those that are pinned in pin order, and the ids of the running
/// ones in launch order.
#[verifier::ext_equal]
pub struct DockState {
    /// The apps.
    pub apps: Seq<App>,
    /// The ids of the running apps, in launch order.
    pub launched: Seq<Seq<char>>,
}

/// The pinned apps of a list.
pub open spec fn pinned_of(apps: Seq<App>) -> Seq<App>
    decreases apps.len(),
{
    if apps.len() == 0 {
        Seq::empty()
    } else if apps.last().pinned {
        pinned_of(apps.drop_last()).push(apps.last())
    } else {
        pinned_of(apps.drop_last())
    }
}

/// The unpinned apps among those with the given ids, in the order of the ids.
pub open spec fn unpinned_of(ids: Seq<Seq<char>>, apps: Seq<App>) -> Seq<App>
    decreases ids.len(),
{
    if ids.len() == 0 {
        Seq::empty()
    } else {
        let i = app_at(apps, ids.last()) as int;
        let before = unpinned_of(ids.drop_last(), apps);
        if i < apps.len() && !apps[i].pinned {
            before.push(apps[i])
        } else {
            before
        }
    }
}

impl DockState {
    /// The position of an app, or the number of apps.
    pub open spec fn at(self, id: Seq<char>) -> int {
        app_at(self.apps, id) as int
    }

    /// Whether an app is in the dock.
    pub open spec fn has(self, id: Seq<char>) -> bool {
        self.at(id) < self.apps.len()
    }

    /// The app at the position of an id.
    pub open spec fn app(self, id: Seq<char>) -> App {
        self.apps[self.at(id)]
    }

    /// Whether the dock is a possible one: no app occurs twice, every app is pinned or running, and
    /// the launch order lists each running app once.
    pub open spec fn valid(self) -> bool {
        &&& forall|i: int, j: int|
            0 <= i < j < self.apps.len() ==> (#[trigger] self.apps[i]).id != (
            #[trigger] self.apps[j]).id
        &&& forall|i: int|
            0 <= i < self.apps.len() ==> (#[trigger] self.apps[i]).pinned || self.apps[i].running
        &&& forall|i: int, j: int|
            0 <= i < j < self.launched.len() ==> #[trigger] self.launched[i]
                != #[trigger] self.launched[j]
        &&& forall|i: int|
            0 <= i < self.apps.len() ==> ((#[trigger] self.apps[i]).running
                <==> self.launched.contains(self.apps[i].id))
        &&& forall|k: int|
            0 <= k < self.launched.len() ==> self.has(#[trigger] self.launched[k])
    }

    /// The dock after an app is pinned: it comes last in pin order, unless it was pinned already.
    pub open spec fn pin(self, id: Seq<char>, name: Seq<char>) -> DockState {
        let i = self.at(id);
        if !self.has(id) {
            DockState { apps: self.apps.push(App { pinned: true, ..fresh(id, name) }), ..self }
        } else if self.apps[i].pinned {
            self
        } else {
            DockState {
                apps: self.apps.remove(i).push(App { pinned: true, ..self.apps[i] }),
                ..self
            }
        }
    }

    /// The dock after an app is unpinned: it leaves the dock unless it is running.
    pub open spec fn unpin(self, id: Seq<char>) -> DockState {
        let i = self.at(id);
        if !self.has(id) {
            self
        } else if self.apps[i].running {
            DockState {
                apps: self.apps.update(i, App { pinned: false, ..self.apps[i] }),
                ..self
            }
        } else {
            DockState { apps: self.apps.remove(i), ..self }
        }
    }

    /// The dock after an app is seen running with some windows: it comes last in launch order,
    /// unless it was running already.
    pub open spec fn run(self, id: Seq<char>, name: Seq<char>, windows: u32) -> DockState {
        let i = self.at(id);
        if !self.has(id) {
            DockState {
                apps: self.apps.push(App { running: true, windows, ..fresh(id, name) }),
                launched: self.launched.push(id),
            }
        } else {
            DockState {
                apps: self.apps.update(i, App { running: true, windows, ..self.apps[i] }),
                launched: if self.apps[i].running {
                    self.launched
                } else {
                    self.launched.push(id)
                },
            }
        }
    }

    /// The dock after an app stopped: it leaves the dock unless it is pinned.
    pub open spec fn stop(self, id: Seq<char>) -> DockState {
        let i = self.at(id);
        if !self.has(id) {
            self
        } else {
            DockState {
                apps: if self.apps[i].pinned {
                    self.apps.update(
                        i,
                        App { running: false, windows: 0, attention: false, ..self.apps[i] },
                    )
                } else {
                    self.apps.remove(i)
                },
                launched: if self.apps[i].running {
                    self.launched.remove(id_at(self.launched, id) as int)
                } else {
                    self.launched
                },
            }
        }
    }

    /// The dock after the attention flag of an app is set.
    pub open spec fn flag(self, id: Seq<char>, on: bool) -> DockState {
        let i = self.at(id);
        if !self.has(id) {
            self
        } else {
            DockState {
                apps: self.apps.update(i, App { attention: on, ..self.apps[i] }),
                ..self
            }
        }
    }

    /// The visible apps: pinned apps first, in pin order, then the running ones that are not
    /// pinned, in launch order.
    pub open spec fn shown(self) -> Seq<App> {
        pinned_of(self.apps) + unpinned_of(self.launched, self.apps)
    }
}

// ---------------------------------------------------------------------------
// Lemmas
// ---------------------------------------------------------------------------

proof fn lemma_app_at(apps: Seq<App>, id: Seq<char>)
    ensures
        app_at(apps, id) <= apps.len(),
        forall|j: int| 0 <= j < app_at(apps, id) ==> (#[trigger] apps[j]).id != id,
        app_at(apps, id) < apps.len() ==> apps[app_at(apps, id) as int].id == id,
    decreases apps.len(),
{
    if apps.len() > 0 && apps[0].id != id {
        let rest = apps.drop_first();
        lemma_app_at(rest, id);
        assert forall|j: int| 0 <= j < app_at(apps, id) implies (#[trigger] apps[j]).id != id by {
            if j > 0 {
                assert(rest[j - 1] == apps[j]);
            }
        }
    }
}

proof fn lemma_app_is_at(apps: Seq<App>, id: Seq<char>, i: int)
    requires
        0 <= i <= apps.len(),
        forall|j: int| 0 <= j < i ==> (#[trigger] apps[j]).id != id,
        i < apps.len() ==> apps[i].id == id,
    ensures
        app_at(apps, id) == i,
{
    lemma_app_at(apps, id);
    let k = app_at(apps, id) as int;
    if k < i {
        assert(apps[k].id != id);
    }
    if i < k {
        assert(apps[i].id != id);
    }
}

proof fn lemma_id_at(ids: Seq<Seq<char>>, id: Seq<char>)
    ensures
        id_at(ids, id) <= ids.len(),
        forall|j: int| 0 <= j < id_at(ids, id) ==> #[trigger] ids[j] != id,
        id_at(ids, id) < ids.len() ==> ids[id_at(ids, id) as int] == id,
        ids.contains(id) <==> id_at(ids, id) < ids.len(),
    decreases ids.len(),
{
    if ids.len() > 0 && ids[0] != id {
        let rest = ids.drop_first();
        lemma_id_at(rest, id);
        assert forall|j: int| 0 <= j < id_at(ids, id) implies #[trigger] ids[j] != id by {
            if j > 0 {
                assert(rest[j - 1] == ids[j]);
            }
        }
        if ids.contains(id) {
            let k = choose|k: int| 0 <= k < ids.len() && ids[k] == id;
            assert(rest[k - 1] == id);
        }
        if id_at(ids, id) < ids.len() {
            assert(ids[id_at(ids, id) as int] == rest[id_at(rest, id) as int]);
        }
    }
}

proof fn lemma_id_is_at(ids: Seq<Seq<char>>, id: Seq<char>, i: int)
    requires
        0 <= i <= ids.len(),
        forall|j: int| 0 <= j < i ==> #[trigger] ids[j] != id,
        i < ids.len() ==> ids[i] == id,
    ensures
        id_at(ids, id) == i,
{
    lemma_id_at(ids, id);
    let k = id_at(ids, id) as int;
    if k < i {
        assert(ids[k] != id);
    }
    if i < k {
        assert(ids[i] != id);
    }
}

proof fn lemma_has(s: DockState, id: Seq<char>, i: int)
    requires
        0 <= i < s.apps.len(),
        s.apps[i].id == id,
    ensures
        s.has(id),
{
    lemma_app_at(s.apps, id);
    if !s.has(id) {
        assert(s.apps[i].id != id);
    }
}

/// Every transition keeps the dock valid: no app twice, none that is neither pinned nor running.
pub proof fn law_transitions_keep_the_dock_valid(
    s: DockState,
    id: Seq<char>,
    name: Seq<char>,
    windows: u32,
    on: bool,
)
    requires
        s.valid(),
    ensures
        s.pin(id, name).valid(),
        s.unpin(id).valid(),
        s.run(id, name, windows).valid(),
        s.stop(id).valid(),
        s.flag(id, on).valid(),
{
    lemma_app_at(s.apps, id);
    lemma_id_at(s.launched, id);
    if s.has(id) {
        assert(s.apps[s.at(id)].id == id);
    } else if s.launched.contains(id) {
        let k = choose|k: int| 0 <= k < s.launched.len() && s.launched[k] == id;
        assert(s.has(s.launched[k]));
    }
    lemma_pin_valid(s, id, name);
    lemma_unpin_valid(s, id);
    lemma_run_valid(s, id, name, windows);
    lemma_stop_valid(s, id);
    lemma_flag_valid(s, id, on);
}

/// Replacing an app by one with the same id and running state keeps the order facts.
proof fn lemma_update_valid(s: DockState, i: int, a: App)
    requires
        s.valid(),
        0 <= i < s.apps.len(),
        a.id == s.apps[i].id,
        a.running == s.apps[i].running,
        a.pinned || a.running,
    ensures
        (DockState { apps: s.apps.update(i, a), ..s }).valid(),
{
    let t = DockState { apps: s.apps.update(i, a), ..s };
    assert forall|j: int| 0 <= j < t.apps.len() implies ((#[trigger] t.apps[j]).running
        <==> t.launched.contains(t.apps[j].id)) by {
        assert(s.apps[j].running <==> s.launched.contains(s.apps[j].id));
    }
    assert forall|k: int| 0 <= k < t.launched.len() implies t.has(#[trigger] t.launched[k]) by {
        assert(s.has(s.launched[k]));
        let p = s.at(s.launched[k]);
        lemma_app_at(s.apps, s.launched[k]);
        assert(t.apps[p].id == s.apps[p].id);
        lemma_has(t, t.launched[k], p);
    }
    assert forall|p: int, q: int| 0 <= p < q < t.apps.len() implies (#[trigger] t.apps[p]).id != (
    #[trigger] t.apps[q]).id by {
        assert(s.apps[p].id != s.apps[q].id);
    }
}

/// Removing an app that is not running keeps the order facts.
proof fn lemma_remove_valid(s: DockState, i: int)
    requires
        s.valid(),
        0 <= i < s.apps.len(),
        !s.apps[i].running,
    ensures
        (DockState { apps: s.apps.remove(i), ..s }).valid(),
{
    let t = DockState { apps: s.apps.remove(i), ..s };
    assert forall|j: int| 0 <= j < t.apps.len() implies ((#[trigger] t.apps[j]).running
        <==> t.launched.contains(t.apps[j].id)) && (t.apps[j].pinned || t.apps[j].running) by {
        let p = if j < i {
            j
        } else {
            j + 1
        };
        assert(t.apps[j] == s.apps[p]);
        assert(s.apps[p].running <==> s.launched.contains(s.apps[p].id));
    }
    assert forall|k: int| 0 <= k < t.launched.len() implies t.has(#[trigger] t.launched[k]) by {
        assert(s.has(s.launched[k]));
        let p = s.at(s.launched[k]);
        lemma_app_at(s.apps, s.launched[k]);
        assert(s.launched.contains(s.apps[p].id));
        assert(s.apps[p].running);
        let q = if p < i {
            p
        } else {
            p - 1
        };
        assert(t.apps[q] == s.apps[p]);
        lemma_has(t, t.launched[k], q);
    }
    assert forall|p: int, q: int| 0 <= p < q < t.apps.len() implies (#[trigger] t.apps[p]).id != (
    #[trigger] t.apps[q]).id by {
        let pp = if p < i {
            p
        } else {
            p + 1
        };
        let qq = if q < i {
            q
        } else {
            q + 1
        };
        assert(s.apps[pp].id != s.apps[qq].id);
    }
}

/// Adding a new app that is not running keeps the order facts.
proof fn lemma_push_valid(s: DockState, a: App)
    requires
        s.valid(),
        !s.has(a.id),
        !a.running,
        a.pinned,
    ensures
        (DockState { apps: s.apps.push(a), ..s }).valid(),
{
    let t = DockState { apps: s.apps.push(a), ..s };
    lemma_app_at(s.apps, a.id);
    if s.launched.contains(a.id) {
        let k = choose|k: int| 0 <= k < s.launched.len() && s.launched[k] == a.id;
        assert(s.has(s.launched[k]));
    }
    assert forall|j: int| 0 <= j < t.apps.len() implies ((#[trigger] t.apps[j]).running
        <==> t.launched.contains(t.apps[j].id)) && (t.apps[j].pinned || t.apps[j].running) by {
        if j < s.apps.len() {
            assert(t.apps[j] == s.apps[j]);
        }
    }
    assert forall|k: int| 0 <= k < t.launched.len() implies t.has(#[trigger] t.launched[k]) by {
        assert(s.has(s.launched[k]));
        let p = s.at(s.launched[k]);
        lemma_app_at(s.apps, s.launched[k]);
        assert(t.apps[p] == s.apps[p]);
        lemma_has(t, t.launched[k], p);
    }
    assert forall|p: int, q: int| 0 <= p < q < t.apps.len() implies (#[trigger] t.apps[p]).id != (
    #[trigger] t.apps[q]).id by {
        assert(t.apps[p] == s.apps[p]);
        if q < s.apps.len() {
            assert(s.apps[p].id != s.apps[q].id);
        }
    }
}

/// Starting an app that was pinned but not running keeps the order facts.
proof fn lemma_start_valid(s: DockState, i: int, a: App)
    requires
        s.valid(),
        0 <= i < s.apps.len(),
        !s.apps[i].running,
        a.id == s.apps[i].id,
        a.running,
    ensures
        (DockState { apps: s.apps.update(i, a), launched: s.launched.push(a.id) }).valid(),
{
    let t = DockState { apps: s.apps.update(i, a), launched: s.launched.push(a.id) };
    assert(!s.launched.contains(s.apps[i].id));
    assert(t.launched[s.launched.len() as int] == a.id);
    assert forall|j: int| 0 <= j < t.apps.len() implies ((#[trigger] t.apps[j]).running
        <==> t.launched.contains(t.apps[j].id)) by {
        if j != i {
            assert(s.apps[j].running <==> s.launched.contains(s.apps[j].id));
            if i < j {
                assert(s.apps[i].id != s.apps[j].id);
            } else {
                assert(s.apps[j].id != s.apps[i].id);
            }
            if s.launched.contains(s.apps[j].id) {
                let k = choose|k: int|
                    0 <= k < s.launched.len() && s.launched[k] == s.apps[j].id;
                assert(t.launched[k] == t.apps[j].id);
            }
            if t.launched.contains(t.apps[j].id) {
                let k = choose|k: int|
                    0 <= k < t.launched.len() && t.launched[k] == t.apps[j].id;
                assert(s.launched[k] == s.apps[j].id);
            }
        }
    }
    assert forall|k: int| 0 <= k < t.launched.len() implies t.has(#[trigger] t.launched[k]) by {
        if k < s.launched.len() {
            assert(s.has(s.launched[k]));
            let p = s.at(s.launched[k]);
            lemma_app_at(s.apps, s.launched[k]);
            assert(t.apps[p].id == s.apps[p].id);
            lemma_has(t, t.launched[k], p);
        } else {
            lemma_has(t, a.id, i);
        }
    }
    assert forall|p: int, q: int| 0 <= p < q < t.launched.len() implies #[trigger] t.launched[p]
        != #[trigger] t.launched[q] by {
        assert(t.launched[p] == s.launched[p]);
        assert(s.launched.contains(s.launched[p]));
        if q < s.launched.len() {
            assert(s.launched[p] != s.launched[q]);
        }
    }
    assert forall|p: int, q: int| 0 <= p < q < t.apps.len() implies (#[trigger] t.apps[p]).id != (
    #[trigger] t.apps[q]).id by {
        assert(s.apps[p].id != s.apps[q].id);
    }
}

/// Stopping a pinned app keeps the order facts.
proof fn lemma_halt_valid(s: DockState, i: int, a: App)
    requires
        s.valid(),
        0 <= i < s.apps.len(),
        s.apps[i].running,
        a.id == s.apps[i].id,
        !a.running,
        a.pinned,
    ensures
        (DockState {
            apps: s.apps.update(i, a),
            launched: s.launched.remove(id_at(s.launched, a.id) as int),
        }).valid(),
{
    let id = a.id;
    lemma_id_at(s.launched, id);
    let m = id_at(s.launched, id) as int;
    assert(s.launched.contains(s.apps[i].id));
    let t = DockState { apps: s.apps.update(i, a), launched: s.launched.remove(m) };
    assert forall|k: int| 0 <= k < t.launched.len() implies #[trigger] t.launched[k] != id by {
        if k < m {
            assert(s.launched[k] != s.launched[m]);
        } else {
            assert(s.launched[m] != s.launched[k + 1]);
        }
    }
    assert forall|j: int| 0 <= j < t.apps.len() implies ((#[trigger] t.apps[j]).running
        <==> t.launched.contains(t.apps[j].id)) && (t.apps[j].pinned || t.apps[j].running) by {
        if j != i {
            assert(s.apps[j].running <==> s.launched.contains(s.apps[j].id));
            if i < j {
                assert(s.apps[i].id != s.apps[j].id);
            } else {
                assert(s.apps[j].id != s.apps[i].id);
            }
            if s.launched.contains(s.apps[j].id) {
                let k = choose|k: int|
                    0 <= k < s.launched.len() && s.launched[k] == s.apps[j].id;
                let q = if k < m {
                    k
                } else {
                    k - 1
                };
                assert(k != m);
                assert(t.launched[q] == t.apps[j].id);
            }
            if t.launched.contains(t.apps[j].id) {
                let k = choose|k: int|
                    0 <= k < t.launched.len() && t.launched[k] == t.apps[j].id;
                let q = if k < m {
                    k
                } else {
                    k + 1
                };
                assert(s.launched[q] == s.apps[j].id);
            }
        }
    }
    assert forall|k: int| 0 <= k < t.launched.len() implies t.has(#[trigger] t.launched[k]) by {
        let q = if k < m {
            k
        } else {
            k + 1
        };
        assert(s.has(s.launched[q]));
        let p = s.at(s.launched[q]);
        lemma_app_at(s.apps, s.launched[q]);
        assert(t.apps[p].id == s.apps[p].id);
        lemma_has(t, t.launched[k], p);
    }
    assert forall|p: int, q: int| 0 <= p < q < t.launched.len() implies #[trigger] t.launched[p]
        != #[trigger] t.launched[q] by {
        let pp = if p < m {
            p
        } else {
            p + 1
        };
        let qq = if q < m {
            q
        } else {
            q + 1
        };
        assert(s.launched[pp] != s.launched[qq]);
    }
    assert forall|p: int, q: int| 0 <= p < q < t.apps.len() implies (#[trigger] t.apps[p]).id != (
    #[trigger] t.apps[q]).id by {
        assert(s.apps[p].id != s.apps[q].id);
    }
}

proof fn lemma_flag_valid(s: DockState, id: Seq<char>, on: bool)
    requires
        s.valid(),
    ensures
        s.flag(id, on).valid(),
{
    if s.has(id) {
        let i = s.at(id);
        lemma_update_valid(s, i, App { attention: on, ..s.apps[i] });
    }
}

proof fn lemma_unpin_valid(s: DockState, id: Seq<char>)
    requires
        s.valid(),
    ensures
        s.unpin(id).valid(),
{
    if s.has(id) {
        let i = s.at(id);
        if s.apps[i].running {
            lemma_update_valid(s, i, App { pinned: false, ..s.apps[i] });
        } else {
            lemma_remove_valid(s, i);
        }
    }
}

/// A change of place keeps the order facts.
proof fn lemma_move_valid(s: DockState, i: int, a: App)
    requires
        s.valid(),
        0 <= i < s.apps.len(),
        a.id == s.apps[i].id,
        a.running == s.apps[i].running,
        a.pinned,
    ensures
        (DockState { apps: s.apps.remove(i).push(a), ..s }).valid(),
{
    let t = DockState { apps: s.apps.remove(i).push(a), ..s };
    let n = s.apps.len() - 1;
    assert forall|j: int| 0 <= j < t.apps.len() implies ((#[trigger] t.apps[j]).running
        <==> t.launched.contains(t.apps[j].id)) && (t.apps[j].pinned || t.apps[j].running) by {
        let p = if j == n {
            i
        } else if j < i {
            j
        } else {
            j + 1
        };
        assert(t.apps[j].id == s.apps[p].id);
        assert(s.apps[p].running <==> s.launched.contains(s.apps[p].id));
    }
    assert forall|k: int| 0 <= k < t.launched.len() implies t.has(#[trigger] t.launched[k]) by {
        assert(s.has(s.launched[k]));
        let p = s.at(s.launched[k]);
        lemma_app_at(s.apps, s.launched[k]);
        let q = if p == i {
            n
        } else if p < i {
            p
        } else {
            p - 1
        };
        assert(t.apps[q].id == s.apps[p].id);
        lemma_has(t, t.launched[k], q);
    }
    assert forall|p: int, q: int| 0 <= p < q < t.apps.len() implies (#[trigger] t.apps[p]).id != (
    #[trigger] t.apps[q]).id by {
        let pp = if p < i {
            p
        } else {
            p + 1
        };
        let qq = if q == n {
            i
        } else if q < i {
            q
        } else {
            q + 1
        };
        assert(t.apps[p].id == s.apps[pp].id);
        assert(t.apps[q].id == s.apps[qq].id);
        if pp < qq {
            assert(s.apps[pp].id != s.apps[qq].id);
        } else {
            assert(s.apps[qq].id != s.apps[pp].id);
        }
    }
}

proof fn lemma_pin_valid(s: DockState, id: Seq<char>, name: Seq<char>)
    requires
        s.valid(),
    ensures
        s.pin(id, name).valid(),
{
    lemma_app_at(s.apps, id);
    let i = s.at(id);
    if !s.has(id) {
        lemma_push_valid(s, App { pinned: true, ..fresh(id, name) });
    } else if !s.apps[i].pinned {
        lemma_move_valid(s, i, App { pinned: true, ..s.apps[i] });
    }
}

proof fn lemma_run_valid(s: DockState, id: Seq<char>, name: Seq<char>, windows: u32)
    requires
        s.valid(),
    ensures
        s.run(id, name, windows).valid(),
{
    lemma_app_at(s.apps, id);
    let i = s.at(id);
    if !s.has(id) {
        let shown = App { pinned: true, ..fresh(id, name) };
        let t = DockState { apps: s.apps.push(shown), ..s };
        lemma_push_valid(s, shown);
        let a = App { running: true, windows, ..fresh(id, name) };
        lemma_start_valid(t, i, a);
        assert(t.apps.update(i, a) =~= s.apps.push(a));
    } else if s.apps[i].running {
        lemma_update_valid(s, i, App { running: true, windows, ..s.apps[i] });
    } else {
        lemma_start_valid(s, i, App { running: true, windows, ..s.apps[i] });
    }
}

proof fn lemma_stop_valid(s: DockState, id: Seq<char>)
    requires
        s.valid(),
    ensures
        s.stop(id).valid(),
{
    lemma_app_at(s.apps, id);
    let i = s.at(id);
    if s.has(id) {
        let a = App { running: false, windows: 0, attention: false, pinned: true, ..s.apps[i] };
        if s.apps[i].running {
            lemma_halt_valid(s, i, a);
            if !s.apps[i].pinned {
                let t = DockState {
                    apps: s.apps.update(i, a),
                    launched: s.launched.remove(id_at(s.launched, id) as int),
                };
                lemma_remove_valid(t, i);
                assert(t.apps.remove(i) =~= s.apps.remove(i));
            }
        } else {
            lemma_update_valid(s, i, a);
        }
    }
}

proof fn lemma_pinned_of(apps: Seq<App>)
    ensures
        forall|i: int|
            0 <= i < apps.len() && (#[trigger] apps[i]).pinned ==> pinned_of(apps).contains(
                apps[i],
            ),
        forall|j: int|
            0 <= j < pinned_of(apps).len() ==> (#[trigger] pinned_of(apps)[j]).pinned
                && apps.contains(pinned_of(apps)[j]),
    decreases apps.len(),
{
    if apps.len() > 0 {
        let rest = apps.drop_last();
        lemma_pinned_of(rest);
        let p = pinned_of(apps);
        assert forall|i: int| 0 <= i < apps.len() && (#[trigger] apps[i]).pinned implies p.contains(
            apps[i],
        ) by {
            if i < rest.len() {
                assert(rest[i] == apps[i]);
                let k = choose|k: int|
                    0 <= k < pinned_of(rest).len() && pinned_of(rest)[k] == apps[i];
                assert(p[k] == apps[i]);
            } else {
                assert(p[p.len() - 1] == apps[i]);
            }
        }
        assert forall|j: int| 0 <= j < p.len() implies (#[trigger] p[j]).pinned && apps.contains(
            p[j],
        ) by {
            if j < pinned_of(rest).len() {
                assert(p[j] == pinned_of(rest)[j]);
                let k = choose|k: int| 0 <= k < rest.len() && rest[k] == p[j];
                assert(apps[k] == p[j]);
            } else {
                assert(apps[apps.len() - 1] == p[j]);
            }
        }
    }
}

proof fn lemma_unpinned_of(ids: Seq<Seq<char>>, apps: Seq<App>)
    ensures
        forall|k: int|
            0 <= k < ids.len() && app_at(apps, #[trigger] ids[k]) < apps.len() && !apps[app_at(
                apps,
                ids[k],
            ) as int].pinned ==> unpinned_of(ids, apps).contains(
                apps[app_at(apps, ids[k]) as int],
            ),
        forall|j: int|
            0 <= j < unpinned_of(ids, apps).len() ==> !(#[trigger] unpinned_of(
                ids,
                apps,
            )[j]).pinned && apps.contains(unpinned_of(ids, apps)[j]),
    decreases ids.len(),
{
    if ids.len() > 0 {
        let rest = ids.drop_last();
        lemma_unpinned_of(rest, apps);
        let p = unpinned_of(ids, apps);
        assert forall|k: int|
            0 <= k < ids.len() && app_at(apps, #[trigger] ids[k]) < apps.len() && !apps[app_at(
                apps,
                ids[k],
            ) as int].pinned implies p.contains(apps[app_at(apps, ids[k]) as int]) by {
            let a = apps[app_at(apps, ids[k]) as int];
            if k < rest.len() {
                assert(rest[k] == ids[k]);
                let j = choose|j: int|
                    0 <= j < unpinned_of(rest, apps).len() && unpinned_of(rest, apps)[j] == a;
                assert(p[j] == a);
            } else {
                assert(p[p.len() - 1] == a);
            }
        }
        assert forall|j: int| 0 <= j < p.len() implies !(#[trigger] p[j]).pinned && apps.contains(
            p[j],
        ) by {
            if j < unpinned_of(rest, apps).len() {
                assert(p[j] == unpinned_of(rest, apps)[j]);
            } else {
                lemma_app_at(apps, ids.last());
                assert(apps[app_at(apps, ids.last()) as int] == p[j]);
            }
        }
    }
}

/// The dock shows exactly the apps that it holds, and the pinned ones before the others.
pub proof fn law_every_app_is_shown(s: DockState)
    requires
        s.valid(),
    ensures
        forall|a: App| #![auto] s.apps.contains(a) <==> s.shown().contains(a),
        forall|i: int, j: int|
            0 <= i < j < s.shown().len() && (#[trigger] s.shown()[j]).pinned ==> (
            #[trigger] s.shown()[i]).pinned,
{
    let p = pinned_of(s.apps);
    let u = unpinned_of(s.launched, s.apps);
    lemma_pinned_of(s.apps);
    lemma_unpinned_of(s.launched, s.apps);
    assert forall|a: App| #![auto] s.apps.contains(a) <==> s.shown().contains(a) by {
        if s.apps.contains(a) {
            let i = choose|i: int| 0 <= i < s.apps.len() && s.apps[i] == a;
            if a.pinned {
                let k = choose|k: int| 0 <= k < p.len() && p[k] == a;
                assert(p.contains(s.apps[i]));
                assert(s.shown()[k] == a);
            } else {
                assert(s.apps[i].running && s.launched.contains(s.apps[i].id));
                let k = choose|k: int| 0 <= k < s.launched.len() && s.launched[k] == a.id;
                lemma_app_at(s.apps, a.id);
                let at = app_at(s.apps, a.id) as int;
                if at < i {
                    assert(s.apps[at].id != s.apps[i].id);
                } else if i < at {
                    assert(s.apps[i].id != a.id);
                }
                assert(app_at(s.apps, s.launched[k]) == i);
                assert(u.contains(a));
                let j = choose|j: int| 0 <= j < u.len() && u[j] == a;
                assert(s.shown()[p.len() + j] == a);
            }
        }
        if s.shown().contains(a) {
            let k = choose|k: int| 0 <= k < s.shown().len() && s.shown()[k] == a;
            if k < p.len() {
                assert(p[k] == a);
            } else {
                assert(u[k - p.len()] == a);
            }
        }
    }
    assert forall|i: int, j: int|
        0 <= i < j < s.shown().len() && (#[trigger] s.shown()[j]).pinned implies (
    #[trigger] s.shown()[i]).pinned by {
        if j >= p.len() {
            assert(!u[j - p.len()].pinned);
        }
        assert(s.shown()[i] == p[i]);
    }
}

/// An unpinned app that stops leaves the dock as it was before it ran.
pub proof fn law_stop_undoes_run(s: DockState, id: Seq<char>, name: Seq<char>, windows: u32)
    requires
        s.valid(),
        !s.has(id),
    ensures
        s.run(id, name, windows).stop(id) == s,
{
    let t = s.run(id, name, windows);
    lemma_app_at(s.apps, id);
    lemma_app_is_at(t.apps, id, s.apps.len() as int);
    assert forall|j: int| 0 <= j < s.launched.len() implies #[trigger] t.launched[j] != id by {
        assert(s.has(s.launched[j]));
    }
    lemma_id_is_at(t.launched, id, s.launched.len() as int);
    assert(t.apps.remove(s.apps.len() as int) =~= s.apps);
    assert(t.launched.remove(s.launched.len() as int) =~= s.launched);
}

/// Unpinning an app that was only pinned leaves the dock as it was before.
pub proof fn law_unpin_undoes_pin(s: DockState, id: Seq<char>, name: Seq<char>)
    requires
        s.valid(),
        !s.has(id),
    ensures
        s.pin(id, name).unpin(id) == s,
{
    let t = s.pin(id, name);
    lemma_app_at(s.apps, id);
    lemma_app_is_at(t.apps, id, s.apps.len() as int);
    assert(t.apps.remove(s.apps.len() as int) =~= s.apps);
}

// ---------------------------------------------------------------------------
// Dock
// ---------------------------------------------------------------------------

/// The dock / taskbar.
#[derive(Debug, Clone, PartialEq, Eq)]
pub struct Dock {
    /// The apps; the pinned ones stand in pin order.
    items: Vec<DockApp>,
    /// The ids of the running apps, in launch order.
    launched: Vec<String>,
}

impl View for Dock {
    type V = DockState;

    closed spec fn view(&self) -> DockState {
        DockState {
            apps: apps_of(self.items@),
            launched: crate::lists::texts(self.launched@),
        }
    }
}

impl Default for Dock {
    fn default() -> (r: Self)
        ensures
            r@ == (DockState { apps: Seq::empty(), launched: Seq::empty() }),
            r@.valid(),
    {
        Dock::new()
    }
}

impl Dock {
    /// An empty dock.
    pub fn new() -> (r: Self)
        ensures
            r@ == (DockState { apps: Seq::empty(), launched: Seq::empty() }),
            r@.valid(),
    {
        let r = Dock { items: Vec::new(), launched: Vec::new() };
        assert(apps_of(r.items@) =~= Seq::empty());
        assert(crate::lists::texts(r.launched@) =~= Seq::empty());
        r
    }

    /// The position of `id`, or the number of items.
    fn index_of(&self, id: &str) -> (i: usize)
        ensures
            i <= self.items@.len(),
            i == self@.at(id@),
    {
        let ghost apps = apps_of(self.items@);
        let mut i: usize = 0;
        while i < self.items.len() && !str_eq(self.items[i].id.as_str(), id)
            invariant
                i <= self.items@.len(),
                apps == apps_of(self.items@),
                forall|j: int| 0 <= j < i ==> (#[trigger] apps[j]).id != id@,
            decreases self.items@.len() - i,
        {
            i = i + 1;
        }
        proof {
            lemma_app_is_at(apps, id@, i as int);
        }
        i
    }

    /// The position of `id` in the launch order, or the number of running apps.
    fn launch_index(&self, id: &str) -> (i: usize)
        ensures
            i <= self.launched@.len(),
            i == id_at(self@.launched, id@),
    {
        let ghost ids = crate::lists::texts(self.launched@);
        let mut i: usize = 0;
        while i < self.launched.len() && !str_eq(self.launched[i].as_str(), id)
            invariant
                i <= self.launched@.len(),
                ids == crate::lists::texts(self.launched@),
                forall|j: int| 0 <= j < i ==> #[trigger] ids[j] != id@,
            decreases self.launched@.len() - i,
        {
            i = i + 1;
        }
        proof {
            lemma_id_is_at(ids, id@, i as int);
        }
        i
    }

    /// Pin an app (creating its item if absent).
    pub fn pin(&mut self, id: &str, name: &str)
        requires
            old(self)@.valid(),
        ensures
            final(self)@ == old(self)@.pin(id@, name@),
            final(self)@.valid(),
    {
        let i: usize = self.index_of(id);
        let ghost before = self@;
        if i == self.items.len() {
            self.items.push(
                DockApp {
                    id: id.to_owned(),
                    name: name.to_owned(),
                    pinned: true,
                    running: false,
                    windows: 0,
                    attention: false,
                },
            );
        } else if !self.items[i].pinned {
            let mut app = self.items.remove(i);
            app.pinned = true;
            self.items.push(app);
        }
        assert(self@.apps =~= before.pin(id@, name@).apps);
        proof {
            law_transitions_keep_the_dock_valid(before, id@, name@, 0, false);
        }
    }

    /// Unpin an app; if it is not running it leaves the dock.
    pub fn unpin(&mut self, id: &str)
        requires
            old(self)@.valid(),
        ensures
            final(self)@ == old(self)@.unpin(id@),
            final(self)@.valid(),
    {
        let i: usize = self.index_of(id);
        let ghost before = self@;
        if i < self.items.len() {
            if self.items[i].running {
                self.items[i].pinned = false;
            } else {
                self.items.remove(i);
            }
        }
        assert(self@.apps =~= before.unpin(id@).apps);
        proof {
            law_transitions_keep_the_dock_valid(before, id@, id@, 0, false);
        }
    }

    /// Mark an app running with `windows` open windows (creating its item if a running-but-unpinned
    /// app appears).
    pub fn mark_running(&mut self, id: &str, name: &str, windows: u32)
        requires
            old(self)@.valid(),
        ensures
            final(self)@ == old(self)@.run(id@, name@, windows),
            final(self)@.valid(),
    {
        let i: usize = self.index_of(id);
        let ghost before = self@;
        if i == self.items.len() {
            self.items.push(
                DockApp {
                    id: id.to_owned(),
                    name: name.to_owned(),
                    pinned: false,
                    running: true,
                    windows,
                    attention: false,
                },
            );
            self.launched.push(id.to_owned());
        } else {
            if !self.items[i].running {
                self.launched.push(id.to_owned());
            }
            self.items[i].running = true;
            self.items[i].windows = windows;
        }
        assert(self@.apps =~= before.run(id@, name@, windows).apps);
        assert(self@.launched =~= before.run(id@, name@, windows).launched);
        proof {
            law_transitions_keep_the_dock_valid(before, id@, name@, windows, false);
        }
    }

    /// Mark an app stopped; if it is not pinned it leaves the dock.
    pub fn mark_stopped(&mut self, id: &str)
        requires
            old(self)@.valid(),
        ensures
            final(self)@ == old(self)@.stop(id@),
            final(self)@.valid(),
    {
        let i: usize = self.index_of(id);
        let ghost before = self@;
        if i < self.items.len() {
            let k: usize = self.launch_index(id);
            proof {
                lemma_app_at(before.apps, id@);
                lemma_id_at(before.launched, id@);
                assert(before.apps[i as int].running <==> before.launched.contains(
                    before.apps[i as int].id,
                ));
            }
            if self.items[i].running {
                self.launched.remove(k);
            }
            if self.items[i].pinned {
                self.items[i].running = false;
                self.items[i].windows = 0;
                self.items[i].attention = false;
            } else {
                self.items.remove(i);
            }
        }
        assert(self@.apps =~= before.stop(id@).apps);
        assert(self@.launched =~= before.stop(id@).launched);
        proof {
            law_transitions_keep_the_dock_valid(before, id@, id@, 0, false);
        }
    }

    /// Set an app's attention flag (no-op if the app is not in the dock).
    pub fn set_attention(&mut self, id: &str, on: bool)
        requires
            old(self)@.valid(),
        ensures
            final(self)@ == old(self)@.flag(id@, on),
            final(self)@.valid(),
    {
        let i: usize = self.index_of(id);
        let ghost before = self@;
        if i < self.items.len() {
            self.items[i].attention = on;
        }
        assert(self@.apps =~= before.flag(id@, on).apps);
        proof {
            law_transitions_keep_the_dock_valid(before, id@, id@, 0, on);
        }
    }

    /// The visible dock items: pinned apps first (in pin order), then any running-but-unpinned apps
    /// (in launch order).
    pub fn visible(&self) -> (r: Vec<&DockApp>)
        ensures
            refs(r@) == self@.shown(),
    {
        let mut out: Vec<&DockApp> = Vec::new();
        let ghost apps = apps_of(self.items@);
        let ghost ids = crate::lists::texts(self.launched@);
        let mut i: usize = 0;
        proof {
            assert(refs(out@) =~= Seq::empty());
            assert(apps.take(0) =~= Seq::empty());
        }
        while i < self.items.len()
            invariant
                i <= self.items@.len(),
                apps == apps_of(self.items@),
                refs(out@) == pinned_of(apps.take(i as int)),
            decreases self.items@.len() - i,
        {
            let ghost before = out@;
            proof {
                assert(apps.take(i + 1).drop_last() == apps.take(i as int));
                assert(apps[i as int] == self.items@[i as int]@);
            }
            if self.items[i].pinned {
                out.push(&self.items[i]);
                assert(refs(out@) =~= refs(before).push(apps[i as int]));
            }
            i = i + 1;
        }
        let ghost pinned = pinned_of(apps);
        proof {
            assert(apps.take(i as int) == apps);
            assert(ids.take(0) =~= Seq::empty());
            assert(pinned + unpinned_of(ids.take(0), apps) =~= pinned);
        }
        let mut k: usize = 0;
        while k < self.launched.len()
            invariant
                k <= self.launched@.len(),
                apps == apps_of(self.items@),
                apps == self@.apps,
                ids == crate::lists::texts(self.launched@),
                refs(out@) == pinned + unpinned_of(ids.take(k as int), apps),
            decreases self.launched@.len() - k,
        {
            let at: usize = self.index_of(self.launched[k].as_str());
            let ghost before = out@;
            proof {
                assert(ids.take(k + 1).drop_last() == ids.take(k as int));
                assert(ids[k as int] == self.launched@[k as int]@);
            }
            if at < self.items.len() && !self.items[at].pinned {
                out.push(&self.items[at]);
                proof {
                    assert(refs(out@) =~= refs(before).push(apps[at as int]));
                    assert((pinned + unpinned_of(ids.take(k as int), apps)).push(apps[at as int])
                        =~= pinned + unpinned_of(ids.take(k as int), apps).push(apps[at as int]));
                }
            }
            k = k + 1;
        }
        assert(ids.take(k as int) == ids);
        out
    }
}

/// Side of an app tile in pixels.
pub const TILE: u32 = 44;

/// Gap between app tiles in pixels.
pub const TILE_GAP: u32 = 8;

/// Width of the panel for some apps.
pub open spec fn panel_width(n: nat, pad: u32) -> int {
    n * 44 + crate::geometry::cut(n as int, 1) * 8 + 2 * pad
}

/// Left edge of the panel: it is centred in the bar.
pub open spec fn panel_left(n: nat, pad: u32, bar: Rect) -> int {
    bar.x + crate::geometry::cut(bar.w as int, panel_width(n, pad)) / 2
}

/// Top edge of the panel: it stands at the bottom of the bar.
pub open spec fn panel_top(pad: u32, bar: Rect) -> int {
    bar.y + crate::geometry::cut(bar.h as int, 44 + 2 * pad)
}

/// Whether a panel of tiles lies where its parts have machine coordinates.
pub open spec fn panel_fits(n: nat, pad: u32, bar: Rect) -> bool {
    &&& panel_width(n, pad) <= u32::MAX
    &&& 44 + 2 * pad <= u32::MAX
    &&& crate::geometry::cut(bar.h as int, 44 + 2 * pad) <= i32::MAX
    &&& panel_left(n, pad, bar) + pad + 52 * n <= i32::MAX
    &&& panel_top(pad, bar) + pad + 44 <= i32::MAX
}

/// What is drawn for an app whose tile has its top-left corner at `(x, y)`: the tile, brick if the
/// app requests attention; the upper-cased initial of its name, centred; and a dot if it is running
/// with open windows.
pub open spec fn tile_inks(app: App, x: int, y: int, theme: Theme, palette: Palette) -> Seq<
    crate::paint::Ink,
> {
    let tile = Rect { x: x as i32, y: y as i32, w: 44, h: 44 };
    let color = if app.attention {
        palette.brick_500
    } else {
        palette.petrol_500
    };
    let letters = crate::strings::uppercase(app.name[0]);
    let wide = crate::text::text_width(letters.len(), theme.text_scale) as int;
    let high = crate::text::text_width(1, theme.text_scale) as int;
    let monogram = if app.name.len() == 0 {
        Seq::empty()
    } else {
        seq![
            crate::paint::Ink::Text(
                x + crate::geometry::cut(44, wide) / 2,
                y + crate::geometry::cut(44, high) / 2,
                letters,
                palette.text_on_dark,
                theme.text_scale,
            ),
        ]
    };
    let dot = if app.running && app.windows > 0 {
        seq![
            crate::paint::Ink::Rounded(
                Rect { x: (x + 20) as i32, y: (y + 40) as i32, w: 4, h: 3 },
                1,
                palette.sage_500,
            ),
        ]
    } else {
        Seq::empty()
    };
    seq![crate::paint::Ink::Rounded(tile, theme.radius, color)] + monogram + dot
}

/// What is drawn for some apps, from left to right.
pub open spec fn tiles(apps: Seq<App>, x: int, y: int, theme: Theme, palette: Palette) -> Seq<
    crate::paint::Ink,
>
    decreases apps.len(),
{
    if apps.len() == 0 {
        Seq::empty()
    } else {
        tile_inks(apps[0], x, y, theme, palette) + tiles(
            apps.drop_first(),
            x + 52,
            y,
            theme,
            palette,
        )
    }
}

/// What is drawn for a dock: nothing if it is empty, else an elevated panel and the tiles of its
/// apps on it.
pub open spec fn dock_inks(apps: Seq<App>, theme: Theme, palette: Palette, bar: Rect) -> Seq<
    crate::paint::Ink,
> {
    let pad = theme.padding;
    let panel = Rect {
        x: panel_left(apps.len(), pad, bar) as i32,
        y: panel_top(pad, bar) as i32,
        w: panel_width(apps.len(), pad) as u32,
        h: (44 + 2 * pad) as u32,
    };
    if apps.len() == 0 {
        Seq::empty()
    } else {
        seq![
            crate::paint::Ink::Shadow(panel, theme.elevation),
            crate::paint::Ink::Rounded(panel, theme.radius, palette.surface_dark),
        ] + tiles(apps, panel.x + pad, panel.y + pad, theme, palette)
    }
}

/// Half of what is left of a tile's side.
fn centred(inner: u32) -> (r: i32)
    ensures
        r == crate::geometry::cut(44, inner as int) / 2,
        0 <= r <= 22,
{
    let rest: u32 = if inner > 44 {
        0
    } else {
        44 - inner
    };
    (rest / 2) as i32
}

fn push_tile(
    ops: &mut Vec<DrawOp>,
    app: &DockApp,
    x: i32,
    y: i32,
    theme: &Theme,
    palette: &Palette,
)
    requires
        x + 44 <= i32::MAX,
        y + 44 <= i32::MAX,
    ensures
        crate::paint::inks_of(final(ops)@) == crate::paint::inks_of(old(ops)@) + tile_inks(
            app@,
            x as int,
            y as int,
            *theme,
            *palette,
        ),
{
    let ghost start = crate::paint::inks_of(ops@);
    let tile = Rect { x, y, w: TILE, h: TILE };
    let color: u32 = if app.attention {
        palette.brick_500
    } else {
        palette.petrol_500
    };
    ops.push(DrawOp::RoundedRect { rect: tile, radius: theme.radius, color });
    let ghost mut done = seq![crate::paint::Ink::Rounded(tile, theme.radius, color)];
    assert(crate::paint::inks_of(ops@) =~= start + done);
    let name = to_chars(app.name.as_str());
    if name.len() > 0 {
        let upper = to_uppercase(name[0]);
        let mono = from_chars(upper.as_slice());
        let (gw, gh) = measure_text(mono.as_str(), theme.text_scale);
        let tx: i32 = x + centred(gw);
        let ty: i32 = y + centred(gh);
        let op = DrawOp::Text {
            x: tx,
            y: ty,
            text: mono,
            color: palette.text_on_dark,
            scale: theme.text_scale,
        };
        let ghost ink = op@;
        ops.push(op);
        proof {
            done = done.push(ink);
            assert(crate::paint::inks_of(ops@) =~= start + done);
        }
    }
    if app.running && app.windows > 0 {
        let dot = Rect { x: x + 20, y: y + 40, w: 4, h: 3 };
        ops.push(DrawOp::RoundedRect { rect: dot, radius: 1, color: palette.sage_500 });
        proof {
            done = done.push(crate::paint::Ink::Rounded(dot, 1, palette.sage_500));
            assert(crate::paint::inks_of(ops@) =~= start + done);
        }
    }
    assert(done =~= tile_inks(app@, x as int, y as int, *theme, *palette));
}

impl Dock {
    /// What the dock draws as a branded elevated bar inside `bar_rect`.
    ///
    /// A rounded dark-material panel with a soft drop shadow, sized to the visible apps, is centred
    /// horizontally at the bottom of `bar_rect`. Each app gets a rounded petrol tile bearing its
    /// initial as a monogram; a running app (open windows) shows a sage indicator dot, and an app
    /// requesting attention is tinted brick. Nothing is drawn for an empty dock.
    pub fn plan(&self, theme: &Theme, palette: &Palette, bar_rect: &Rect) -> (r: Vec<DrawOp>)
        requires
            self@.shown().len() > 0 ==> panel_fits(
                self@.shown().len(),
                theme.padding,
                *bar_rect,
            ),
        ensures
            crate::paint::inks_of(r@) == dock_inks(self@.shown(), *theme, *palette, *bar_rect),
    {
        let apps = self.visible();
        let ghost shown = self@.shown();
        let mut ops: Vec<DrawOp> = Vec::new();
        assert(refs(apps@).len() == apps@.len());
        assert(crate::paint::inks_of(ops@) =~= Seq::empty());
        if apps.len() == 0 {
            return ops;
        }
        let pad: u32 = theme.padding;
        let n: u32 = apps.len() as u32;
        let panel_w: u32 = n * TILE + (n - 1) * TILE_GAP + 2 * pad;
        let panel_h: u32 = TILE + 2 * pad;
        let free_w: u32 = if bar_rect.w < panel_w {
            0
        } else {
            bar_rect.w - panel_w
        };
        let free_h: u32 = if bar_rect.h < panel_h {
            0
        } else {
            bar_rect.h - panel_h
        };
        let panel_x: i32 = bar_rect.x + (free_w / 2) as i32;
        let panel_y: i32 = bar_rect.y + free_h as i32;
        let panel = Rect { x: panel_x, y: panel_y, w: panel_w, h: panel_h };
        ops.push(DrawOp::Shadow { rect: panel, shadow: theme.elevation });
        ops.push(
            DrawOp::RoundedRect { rect: panel, radius: theme.radius, color: palette.surface_dark },
        );
        let ghost head = seq![
            crate::paint::Ink::Shadow(panel, theme.elevation),
            crate::paint::Ink::Rounded(panel, theme.radius, palette.surface_dark),
        ];
        let ty: i32 = panel_y + pad as i32;
        let mut tx: i32 = panel_x + pad as i32;
        let ghost all = tiles(shown, tx as int, ty as int, *theme, *palette);
        let mut i: usize = 0;
        proof {
            assert(crate::paint::inks_of(ops@) =~= head);
            assert(shown.skip(0) == shown);
        }
        while i < apps.len()
            invariant
                i <= apps@.len(),
                shown == refs(apps@),
                shown.len() == apps@.len(),
                tx + 52 * (shown.len() - i) <= i32::MAX,
                ty + 44 <= i32::MAX,
                crate::paint::inks_of(ops@) + tiles(
                    shown.skip(i as int),
                    tx as int,
                    ty as int,
                    *theme,
                    *palette,
                ) == head + all,
            decreases apps@.len() - i,
        {
            proof {
                let rest = shown.skip(i as int);
                assert(rest[0] == apps@[i as int]@);
                assert(rest.drop_first() == shown.skip(i + 1));
                crate::lists::lemma_assoc(
                    crate::paint::inks_of(ops@),
                    tile_inks(rest[0], tx as int, ty as int, *theme, *palette),
                    tiles(rest.drop_first(), tx + 52, ty as int, *theme, *palette),
                );
            }
            push_tile(&mut ops, apps[i], tx, ty, theme, palette);
            tx = tx + 52;
            i = i + 1;
        }
        proof {
            assert(shown.skip(i as int).len() == 0);
            let done = crate::paint::inks_of(ops@);
            assert(done + Seq::<crate::paint::Ink>::empty() =~= done);
        }
        ops
    }

    /// Renders the dock inside `bar_rect`.
    pub fn render<
        C: Fn(Rect, u32, i32, i32) -> u8,
        G: Fn(Rect, Shadow) -> Rect,
        A: Fn(Rect, Shadow, i32, i32) -> u8,
        B: Fn(u32, u32) -> u32,
    >(
        &self,
        canvas: &mut Canvas<'_>,
        theme: &Theme,
        palette: &Palette,
        bar_rect: &Rect,
        fx: &Effects<C, G, A, B>,
    )
        requires
            old(canvas).wf(),
            fx.total(),
            self@.shown().len() > 0 ==> panel_fits(
                self@.shown().len(),
                theme.padding,
                *bar_rect,
            ),
        ensures
            final(canvas).wf(),
            final(canvas).w() == old(canvas).w(),
            final(canvas).h() == old(canvas).h(),
            final(final(canvas).buffer())@ == final(old(canvas).buffer())@,
            fx.all_drawn(
                old(canvas).pix(),
                final(canvas).pix(),
                old(canvas).w(),
                dock_inks(self@.shown(), *theme, *palette, *bar_rect),
            ),
    {
        let ops = self.plan(theme, palette, bar_rect);
        paint(canvas, ops.as_slice(), fx);
    }
}

/// What the referenced items say.
pub open spec fn refs(v: Seq<&DockApp>) -> Seq<App> {
    v.map_values(|a: &DockApp| a@)
}

/// The pinned apps are shown in pin order: as they stand in the dock, the others left out.
pub proof fn law_pinned_apps_keep_their_order(apps: Seq<App>)
    ensures
        pinned_of(apps) == apps.filter(|a: App| a.pinned),
    decreases apps.len(),
{
    reveal(Seq::filter);
    if apps.len() > 0 {
        law_pinned_apps_keep_their_order(apps.drop_last());
    } else {
        assert(apps.filter(|a: App| a.pinned) =~= Seq::empty());
    }
}

/// Whether `shown` are the apps with the ids at increasing positions of the launch order.
pub open spec fn in_launch_order(ids: Seq<Seq<char>>, shown: Seq<App>, places: Seq<int>) -> bool {
    &&& places.len() == shown.len()
    &&& forall|i: int, j: int|
        0 <= i < j < places.len() ==> #[trigger] places[i] < #[trigger] places[j]
    &&& forall|i: int|
        0 <= i < places.len() ==> 0 <= #[trigger] places[i] < ids.len() && shown[i].id
            == ids[places[i]] && !shown[i].pinned
}

/// The apps that are not pinned are shown in launch order.
pub proof fn law_running_apps_keep_their_order(ids: Seq<Seq<char>>, apps: Seq<App>) -> (places: Seq<
    int,
>)
    ensures
        in_launch_order(ids, unpinned_of(ids, apps), places),
    decreases ids.len(),
{
    if ids.len() == 0 {
        Seq::empty()
    } else {
        let head = ids.drop_last();
        let before = law_running_apps_keep_their_order(head, apps);
        lemma_app_at(apps, ids.last());
        let i = app_at(apps, ids.last()) as int;
        let shown = unpinned_of(ids, apps);
        let places = if i < apps.len() && !apps[i].pinned {
            before.push(head.len() as int)
        } else {
            before
        };
        assert forall|k: int| 0 <= k < places.len() implies 0 <= #[trigger] places[k] < ids.len()
            && shown[k].id == ids[places[k]] && !shown[k].pinned by {
            if k < before.len() {
                assert(0 <= before[k] < head.len());
                assert(head[before[k]] == ids[places[k]]);
            }
        }
        assert forall|a: int, b: int| 0 <= a < b < places.len() implies #[trigger] places[a]
            < #[trigger] places[b] by {
            assert(0 <= before[a] < head.len());
            if b < before.len() {
                assert(before[a] < before[b]);
            }
        }
        places
    }
}

proof fn lemma_pinned_without(apps: Seq<App>, i: int)
    requires
        0 <= i < apps.len(),
        !apps[i].pinned,
    ensures
        pinned_of(apps.remove(i)) == pinned_of(apps),
    decreases apps.len(),
{
    let less = apps.remove(i);
    if i == apps.len() - 1 {
        assert(less =~= apps.drop_last());
    } else {
        lemma_pinned_without(apps.drop_last(), i);
        assert(less.drop_last() =~= apps.drop_last().remove(i));
        assert(less.last() == apps.last());
    }
}

/// An app that is newly pinned comes last in pin order, and pinning changes no other pinned app.
pub proof fn law_pinning_comes_last(s: DockState, id: Seq<char>, name: Seq<char>)
    ensures
        ({
            let before = pinned_of(s.apps);
            let after = pinned_of(s.pin(id, name).apps);
            if s.has(id) && s.app(id).pinned {
                s.pin(id, name) == s
            } else {
                &&& after.len() == before.len() + 1
                &&& after.drop_last() == before
                &&& after.last().id == id
                &&& after.last().pinned
                &&& s.has(id) ==> after.last() == (App { pinned: true, ..s.app(id) })
                &&& !s.has(id) ==> after.last().name == name && !after.last().running
            }
        }),
{
    lemma_app_at(s.apps, id);
    let i = s.at(id);
    let t = s.pin(id, name);
    if !s.has(id) {
        assert(t.apps.drop_last() =~= s.apps);
        assert(pinned_of(t.apps).drop_last() =~= pinned_of(s.apps));
    } else if !s.apps[i].pinned {
        lemma_pinned_without(s.apps, i);
        assert(t.apps.drop_last() =~= s.apps.remove(i));
        assert(pinned_of(t.apps).drop_last() =~= pinned_of(s.apps));
    }
}

/// An app that is newly launched comes last in launch order, and has the windows that were seen.
pub proof fn law_launching_comes_last(s: DockState, id: Seq<char>, name: Seq<char>, windows: u32)
    ensures
        ({
            let t = s.run(id, name, windows);
            &&& t.has(id)
            &&& t.app(id).running
            &&& t.app(id).windows == windows
            &&& s.has(id) && s.app(id).running ==> t.launched == s.launched
            &&& !(s.has(id) && s.app(id).running) ==> t.launched == s.launched.push(id)
            &&& s.has(id) ==> t.app(id).name == s.app(id).name && t.app(id).pinned == s.app(
                id,
            ).pinned && t.apps.len() == s.apps.len()
            &&& !s.has(id) ==> t.app(id).name == name && !t.app(id).pinned
        }),
{
    lemma_app_at(s.apps, id);
    let t = s.run(id, name, windows);
    let i = s.at(id);
    assert forall|j: int| 0 <= j < i implies (#[trigger] t.apps[j]).id != id by {
        assert(t.apps[j] == s.apps[j]);
    }
    lemma_app_is_at(t.apps, id, i);
}

/// The tiles stand side by side: those of some apps followed by others are those of the first, and
/// behind them those of the others, 52 pixels to the right for each.
pub proof fn law_tiles_stand_side_by_side(
    a: Seq<App>,
    b: Seq<App>,
    x: int,
    y: int,
    theme: Theme,
    palette: Palette,
)
    ensures
        tiles(a + b, x, y, theme, palette) == tiles(a, x, y, theme, palette) + tiles(
            b,
            x + 52 * a.len(),
            y,
            theme,
            palette,
        ),
    decreases a.len(),
{
    if a.len() == 0 {
        assert(a + b == b);
        assert(tiles(a, x, y, theme, palette) + tiles(b, x, y, theme, palette) == tiles(
            b,
            x,
            y,
            theme,
            palette,
        ));
    } else {
        let rest = a.drop_first();
        law_tiles_stand_side_by_side(rest, b, x + 52, y, theme, palette);
        assert((a + b)[0] == a[0]);
        assert((a + b).drop_first() == rest + b);
        crate::lists::lemma_assoc(
            tile_inks(a[0], x, y, theme, palette),
            tiles(rest, x + 52, y, theme, palette),
            tiles(b, x + 52 * a.len(), y, theme, palette),
        );
    }
}

/// The panel holds its tiles with the padding around them on every side: the last tile of 44 pixels
/// ends where the padding on the right begins.
pub proof fn law_tiles_fill_the_panel(n: nat, pad: u32)
    requires
        n > 0,
    ensures
        pad + 52 * (n - 1) + 44 + pad == panel_width(n, pad),
{
}

/// Whether two lists of apps agree on an app: neither has it, or both have it as it is.
pub open spec fn agree_on(a: Seq<App>, b: Seq<App>, id: Seq<char>) -> bool {
    &&& app_at(a, id) < a.len() <==> app_at(b, id) < b.len()
    &&& app_at(a, id) < a.len() ==> a[app_at(a, id) as int] == b[app_at(b, id) as int]
}

proof fn lemma_agree_pushed(apps: Seq<App>, a: App, id: Seq<char>)
    requires
        a.id != id,
    ensures
        agree_on(apps, apps.push(a), id),
{
    lemma_app_at(apps, id);
    let k = app_at(apps, id) as int;
    let t = apps.push(a);
    if k < apps.len() {
        lemma_app_is_at(t, id, k);
    } else {
        assert forall|j: int| 0 <= j < t.len() implies (#[trigger] t[j]).id != id by {
            if j < apps.len() {
                assert(t[j] == apps[j]);
            }
        }
        lemma_app_is_at(t, id, t.len() as int);
    }
}

proof fn lemma_agree_updated(apps: Seq<App>, i: int, a: App, id: Seq<char>)
    requires
        0 <= i < apps.len(),
        a.id != id,
        apps[i].id != id,
    ensures
        agree_on(apps, apps.update(i, a), id),
{
    lemma_app_at(apps, id);
    let k = app_at(apps, id) as int;
    let t = apps.update(i, a);
    assert forall|j: int| 0 <= j < k implies (#[trigger] t[j]).id != id by {
        if j != i {
            assert(t[j] == apps[j]);
        }
    }
    lemma_app_is_at(t, id, k);
}

proof fn lemma_agree_removed(apps: Seq<App>, i: int, id: Seq<char>)
    requires
        0 <= i < apps.len(),
        apps[i].id != id,
    ensures
        agree_on(apps, apps.remove(i), id),
{
    lemma_app_at(apps, id);
    let k = app_at(apps, id) as int;
    let t = apps.remove(i);
    let p = if k > i {
        k - 1
    } else {
        k
    };
    assert forall|j: int| 0 <= j < p implies (#[trigger] t[j]).id != id by {
        if j < i {
            assert(t[j] == apps[j]);
        } else {
            assert(t[j] == apps[j + 1]);
        }
    }
    if k < apps.len() {
        assert(t[p] == apps[k]);
    }
    lemma_app_is_at(t, id, p);
}

/// What happens to one app touches no other.
pub proof fn law_other_apps_are_untouched(
    s: DockState,
    id: Seq<char>,
    name: Seq<char>,
    windows: u32,
    on: bool,
    other: Seq<char>,
)
    requires
        other != id,
    ensures
        agree_on(s.apps, s.pin(id, name).apps, other),
        agree_on(s.apps, s.unpin(id).apps, other),
        agree_on(s.apps, s.run(id, name, windows).apps, other),
        agree_on(s.apps, s.stop(id).apps, other),
        agree_on(s.apps, s.flag(id, on).apps, other),
{
    lemma_app_at(s.apps, id);
    let i = s.at(id);
    if s.has(id) {
        let a = s.apps[i];
        lemma_agree_removed(s.apps, i, other);
        lemma_agree_pushed(s.apps.remove(i), App { pinned: true, ..a }, other);
        lemma_agree_updated(s.apps, i, App { pinned: false, ..a }, other);
        lemma_agree_updated(s.apps, i, App { running: true, windows, ..a }, other);
        lemma_agree_updated(
            s.apps,
            i,
            App { running: false, windows: 0, attention: false, ..a },
            other,
        );
        lemma_agree_updated(s.apps, i, App { attention: on, ..a }, other);
    } else {
        lemma_agree_pushed(s.apps, App { pinned: true, ..fresh(id, name) }, other);
        lemma_agree_pushed(s.apps, App { running: true, windows, ..fresh(id, name) }, other);
    }
}

/// What happens to an app changes what it is about and nothing else of the app: pinning keeps what
/// runs, running keeps the pin and the name, and an app that is neither pinned nor running is gone.
pub proof fn law_an_app_keeps_what_is_not_changed(
    s: DockState,
    id: Seq<char>,
    name: Seq<char>,
    windows: u32,
    on: bool,
)
    requires
        s.valid(),
        s.has(id),
    ensures
        ({
            let a = s.app(id);
            &&& s.pin(id, name).has(id) && s.pin(id, name).app(id) == App { pinned: true, ..a }
            &&& s.run(id, name, windows).has(id) && s.run(id, name, windows).app(id) == App {
                running: true,
                windows,
                ..a
            }
            &&& s.flag(id, on).has(id) && s.flag(id, on).app(id) == App { attention: on, ..a }
            &&& s.unpin(id).has(id) <==> a.running
            &&& a.running ==> s.unpin(id).app(id) == App { pinned: false, ..a }
            &&& s.stop(id).has(id) <==> a.pinned
            &&& a.pinned ==> s.stop(id).app(id) == App {
                running: false,
                windows: 0,
                attention: false,
                ..a
            }
        }),
{
    lemma_app_at(s.apps, id);
    let i = s.at(id);
    let a = s.apps[i];
    let rest = s.apps.remove(i);
    assert forall|j: int| 0 <= j < rest.len() implies (#[trigger] rest[j]).id != id by {
        if j < i {
            assert(rest[j] == s.apps[j]);
        } else {
            assert(rest[j] == s.apps[j + 1]);
            assert(s.apps[i].id != s.apps[j + 1].id);
        }
    }
    lemma_app_is_at(rest, id, rest.len() as int);
    let moved = rest.push(App { pinned: true, ..a });
    assert forall|j: int| 0 <= j < rest.len() implies (#[trigger] moved[j]).id != id by {
        assert(moved[j] == rest[j]);
    }
    lemma_app_is_at(moved, id, rest.len() as int);
    lemma_stays_at(s.apps, id, App { pinned: false, ..a });
    lemma_stays_at(s.apps, id, App { running: true, windows, ..a });
    lemma_stays_at(s.apps, id, App { running: false, windows: 0, attention: false, ..a });
    lemma_stays_at(s.apps, id, App { attention: on, ..a });
}

proof fn lemma_stays_at(apps: Seq<App>, id: Seq<char>, a: App)
    requires
        app_at(apps, id) < apps.len(),
        a.id == id,
    ensures
        app_at(apps.update(app_at(apps, id) as int, a), id) == app_at(apps, id),
{
    lemma_app_at(apps, id);
    let i = app_at(apps, id) as int;
    let t = apps.update(i, a);
    assert forall|j: int| 0 <= j < i implies (#[trigger] t[j]).id != id by {
        assert(t[j] == apps[j]);
    }
    lemma_app_is_at(t, id, i);
}

} // verus!
