//! Notification service: requests and events, the priority-ordered daemon, and the
//! bounded history with its byte format.
//!
//! The daemon keeps the active notifications ordered by priority (highest first,
//! first come first within a priority) for the toast stack, and moves dismissed or
//! actioned notifications into a bounded history that can be exported and restored.

use vstd::prelude::*;

use crate::canvas::Canvas;
use crate::codec::{put_str, put_u32, put_u64, ByteReader};
use crate::color::Palette;
use crate::geometry::Rect;
use crate::paint::{paint, DrawOp, Effects};
use crate::strings::str_eq;
use crate::theme::{Shadow, Theme};

verus! {

/// Urgency of a notification (orders the toast stack; higher shows first).
#[derive(Debug, Clone, Copy, PartialEq, Eq, PartialOrd, Ord, Structural)]
pub enum Priority {
    /// Low-urgency / informational.
    Low,
    /// Default urgency.
    Normal,
    /// Time-sensitive.
    High,
    /// Critical / alert — never coalesced away.
    Critical,
}

impl Priority {
    /// The urgency as a number; it also stands for the priority in the byte format.
    pub open spec fn rank(self) -> nat {
        match self {
            Priority::Low => 0,
            Priority::Normal => 1,
            Priority::High => 2,
            Priority::Critical => 3,
        }
    }
}

/// An actionable button attached to a notification.
#[derive(Debug, Clone, PartialEq, Eq)]
pub struct NotificationAction {
    /// Stable action key the client matches on.
    pub key: String,
    /// Human-readable button label.
    pub label: String,
}

/// A notification posted by an application.
#[derive(Debug, Clone, PartialEq, Eq)]
pub struct Notification {
    /// Client-assigned id (the key for replace / dismiss / action).
    pub id: u64,
    /// Posting application identifier.
    pub app: String,
    /// Short title.
    pub title: String,
    /// Body text.
    pub body: String,
    /// Urgency.
    pub priority: Priority,
    /// Optional action buttons.
    pub actions: Vec<NotificationAction>,
}

/// The requests a client sends.
#[derive(Debug, Clone, PartialEq, Eq)]
pub enum NotificationRequest {
    /// Post a new notification (or supersede one with the same id).
    Post(Notification),
    /// Replace an existing notification's content in place, keeping its slot as long as the
    /// order by priority allows it.
    Replace(Notification),
    /// Dismiss an active notification by id.
    Dismiss(u64),
    /// Invoke one of a notification's actions by key.
    Action {
        /// Target notification id.
        id: u64,
        /// Action key to invoke.
        key: String,
    },
}

/// Events the daemon emits in response to a [`NotificationRequest`].
#[derive(Debug, Clone, PartialEq, Eq)]
pub enum NotificationEvent {
    /// A new notification became active.
    Posted(u64),
    /// An existing notification was updated.
    Replaced(u64),
    /// A notification was dismissed (now in history).
    Dismissed(u64),
    /// An action was invoked; the notification is moved to history.
    ActionInvoked {
        /// Notification id.
        id: u64,
        /// Invoked action key.
        key: String,
    },
    /// The request referenced an id that is not active.
    NotFound(u64),
}

/// A history record: the notification plus how it left the active set.
#[derive(Debug, Clone, PartialEq, Eq)]
pub struct HistoryEntry {
    /// The notification as it was when it left the active set.
    pub notification: Notification,
    /// The action key, if it was resolved by an action (vs. a plain dismiss).
    pub resolved_action: Option<String>,
}

// ---------------------------------------------------------------------------
// The active set and the history
// ---------------------------------------------------------------------------

/// What a daemon holds.
pub struct DaemonView {
    /// The active notifications, in toast order.
    pub active: Seq<Notification>,
    /// The past notifications, oldest first.
    pub history: Seq<HistoryEntry>,
    /// How many past notifications are kept.
    pub cap: nat,
}

/// The position of the notification with an id, or the length of the list.
pub open spec fn find_id(s: Seq<Notification>, id: u64) -> int
    decreases s.len(),
{
    if s.len() == 0 || s[0].id == id {
        0
    } else {
        1 + find_id(s.drop_first(), id)
    }
}

/// Whether a notification with an id is in the list.
pub open spec fn has_id(s: Seq<Notification>, id: u64) -> bool {
    exists|i: int| 0 <= i < s.len() && (#[trigger] s[i]).id == id
}

/// The list without the notification with an id.
pub open spec fn removed(s: Seq<Notification>, id: u64) -> Seq<Notification> {
    if has_id(s, id) {
        s.remove(find_id(s, id))
    } else {
        s
    }
}

/// The position before the first notification of lower priority, or the length of the list.
pub open spec fn slot(s: Seq<Notification>, p: Priority) -> int
    decreases s.len(),
{
    if s.len() == 0 || s[0].priority.rank() < p.rank() {
        0
    } else {
        1 + slot(s.drop_first(), p)
    }
}

/// The list with a notification added behind all others of its priority.
pub open spec fn inserted(s: Seq<Notification>, n: Notification) -> Seq<Notification> {
    s.insert(slot(s, n.priority), n)
}

/// Highest priority first.
pub open spec fn by_priority(s: Seq<Notification>) -> bool {
    forall|i: int, j: int|
        #![trigger s[i], s[j]]
        0 <= i < j < s.len() ==> s[i].priority.rank() >= s[j].priority.rank()
}

/// No id occurs twice.
pub open spec fn distinct_ids(s: Seq<Notification>) -> bool {
    forall|i: int, j: int| #![trigger s[i], s[j]] 0 <= i < j < s.len() ==> s[i].id != s[j].id
}

/// The list with the notification of the same id replaced: in place where the order by priority
/// allows it, else like a newly posted one.
pub open spec fn replaced(s: Seq<Notification>, n: Notification) -> Seq<Notification> {
    let in_place = s.update(find_id(s, n.id), n);
    if by_priority(in_place) {
        in_place
    } else {
        inserted(removed(s, n.id), n)
    }
}

/// Whether a notification has an action with the given key.
pub open spec fn offers(n: Notification, key: Seq<char>) -> bool {
    exists|i: int| 0 <= i < n.actions@.len() && (#[trigger] n.actions@[i]).key@ == key
}

/// The daemon after the notification with an id has left the active set.
pub open spec fn resolved(d: DaemonView, id: u64, action: Option<String>) -> DaemonView {
    DaemonView {
        active: removed(d.active, id),
        history: crate::lists::newest(
            d.history.push(
                HistoryEntry {
                    notification: d.active[find_id(d.active, id)],
                    resolved_action: action,
                },
            ),
            d.cap,
        ),
        cap: d.cap,
    }
}

/// What a request does: the daemon after it, and the event it is answered with.
pub open spec fn handled(d: DaemonView, request: NotificationRequest) -> (
    DaemonView,
    NotificationEvent,
) {
    match request {
        NotificationRequest::Post(n) => (
            DaemonView { active: inserted(removed(d.active, n.id), n), ..d },
            NotificationEvent::Posted(n.id),
        ),
        NotificationRequest::Replace(n) => if has_id(d.active, n.id) {
            (
                DaemonView { active: replaced(d.active, n), ..d },
                NotificationEvent::Replaced(n.id),
            )
        } else {
            (d, NotificationEvent::NotFound(n.id))
        },
        NotificationRequest::Dismiss(id) => if has_id(d.active, id) {
            (resolved(d, id, None), NotificationEvent::Dismissed(id))
        } else {
            (d, NotificationEvent::NotFound(id))
        },
        NotificationRequest::Action { id, key } => if has_id(d.active, id) && offers(
            d.active[find_id(d.active, id)],
            key@,
        ) {
            (resolved(d, id, Some(key)), NotificationEvent::ActionInvoked { id, key })
        } else {
            (d, NotificationEvent::NotFound(id))
        },
    }
}

proof fn lemma_find_id(s: Seq<Notification>, id: u64)
    ensures
        0 <= find_id(s, id) <= s.len(),
        find_id(s, id) < s.len() ==> s[find_id(s, id)].id == id,
        forall|j: int| 0 <= j < find_id(s, id) ==> (#[trigger] s[j]).id != id,
        has_id(s, id) == (find_id(s, id) < s.len()),
    decreases s.len(),
{
    if s.len() > 0 && s[0].id != id {
        let t = s.drop_first();
        lemma_find_id(t, id);
        assert forall|j: int| 0 <= j < find_id(s, id) implies (#[trigger] s[j]).id != id by {
            if j > 0 {
                assert(t[j - 1] == s[j]);
            }
        }
        if has_id(s, id) {
            let i = choose|i: int| 0 <= i < s.len() && (#[trigger] s[i]).id == id;
            assert(t[i - 1].id == id);
        }
    }
}

proof fn lemma_slot(s: Seq<Notification>, p: Priority)
    ensures
        0 <= slot(s, p) <= s.len(),
        slot(s, p) < s.len() ==> s[slot(s, p)].priority.rank() < p.rank(),
        forall|j: int| 0 <= j < slot(s, p) ==> (#[trigger] s[j]).priority.rank() >= p.rank(),
    decreases s.len(),
{
    if s.len() > 0 && s[0].priority.rank() >= p.rank() {
        let t = s.drop_first();
        lemma_slot(t, p);
        assert forall|j: int| 0 <= j < slot(s, p) implies (#[trigger] s[j]).priority.rank()
            >= p.rank() by {
            if j > 0 {
                assert(t[j - 1] == s[j]);
            }
        }
    }
}

proof fn lemma_removed(s: Seq<Notification>, id: u64)
    requires
        by_priority(s),
        distinct_ids(s),
    ensures
        by_priority(removed(s, id)),
        distinct_ids(removed(s, id)),
        !has_id(removed(s, id), id),
{
    lemma_find_id(s, id);
    let r = removed(s, id);
    if has_id(s, id) {
        let k = find_id(s, id);
        assert forall|i: int, j: int|
            #![trigger r[i], r[j]]
            0 <= i < j < r.len() implies r[i].priority.rank() >= r[j].priority.rank() && r[i].id
            != r[j].id by {
            let i0 = if i < k { i } else { i + 1 };
            let j0 = if j < k { j } else { j + 1 };
            assert(r[i] == s[i0] && r[j] == s[j0]);
        }
        assert forall|i: int| 0 <= i < r.len() implies (#[trigger] r[i]).id != id by {
            let i0 = if i < k { i } else { i + 1 };
            assert(r[i] == s[i0]);
            assert(s[k].id == id);
        }
    }
}

proof fn lemma_inserted(s: Seq<Notification>, n: Notification)
    requires
        by_priority(s),
        distinct_ids(s),
        !has_id(s, n.id),
    ensures
        by_priority(inserted(s, n)),
        distinct_ids(inserted(s, n)),
{
    lemma_slot(s, n.priority);
    let k = slot(s, n.priority);
    let r = inserted(s, n);
    assert forall|i: int, j: int|
        #![trigger r[i], r[j]]
        0 <= i < j < r.len() implies r[i].priority.rank() >= r[j].priority.rank() && r[i].id
        != r[j].id by {
        let i0 = if i < k { i } else { i - 1 };
        let j0 = if j < k { j } else { j - 1 };
        if i != k {
            assert(r[i] == s[i0]);
        }
        if j != k {
            assert(r[j] == s[j0]);
            if i == k {
                assert(s[k].priority.rank() >= s[j0].priority.rank());
            }
        }
    }
}

/// The notification daemon: a priority-ordered active set plus a bounded history.
#[derive(Debug)]
pub struct NotificationDaemon {
    active: Vec<Notification>,
    history: Vec<HistoryEntry>,
    history_cap: usize,
}

impl NotificationDaemon {
    /// What the daemon holds.
    pub closed spec fn view(&self) -> DaemonView {
        DaemonView {
            active: self.active@,
            history: self.history@,
            cap: self.history_cap as nat,
        }
    }

    /// The active set is ordered by priority and holds each id once; the history is within its
    /// bound, which is at least one.
    pub open spec fn wf(&self) -> bool {
        &&& by_priority(self@.active)
        &&& distinct_ids(self@.active)
        &&& 1 <= self@.cap
        &&& self@.history.len() <= self@.cap
    }

    /// Creates a daemon retaining up to `history_cap` past notifications (clamped to
    /// at least 1).
    pub fn new(history_cap: usize) -> (r: Self)
        ensures
            r.wf(),
            r@ == (DaemonView {
                active: Seq::empty(),
                history: Seq::empty(),
                cap: if history_cap == 0 {
                    1
                } else {
                    history_cap as nat
                },
            }),
    {
        NotificationDaemon {
            active: Vec::new(),
            history: Vec::new(),
            history_cap: if history_cap == 0 {
                1
            } else {
                history_cap
            },
        }
    }

    /// Dispatches one request, returning the resulting event.
    pub fn handle(&mut self, request: NotificationRequest) -> (r: NotificationEvent)
        requires
            old(self).wf(),
        ensures
            final(self).wf(),
            final(self)@ == handled(old(self)@, request).0,
            r == handled(old(self)@, request).1,
    {
        match request {
            NotificationRequest::Post(n) => self.post(n),
            NotificationRequest::Replace(n) => self.replace(n),
            NotificationRequest::Dismiss(id) => self.dismiss(id),
            NotificationRequest::Action { id, key } => self.action(id, key),
        }
    }

    /// The position of the active notification with an id.
    fn position(&self, id: u64) -> (r: Option<usize>)
        ensures
            match r {
                Some(i) => i == find_id(self@.active, id) && i < self@.active.len() && has_id(
                    self@.active,
                    id,
                ) && self@.active[i as int].id == id,
                None => !has_id(self@.active, id),
            },
    {
        let mut i: usize = 0;
        proof {
            lemma_find_id(self.active@, id);
        }
        while i < self.active.len()
            invariant
                i <= self.active@.len(),
                i <= find_id(self.active@, id),
                find_id(self.active@, id) < self.active@.len() ==> self.active@[find_id(
                    self.active@,
                    id,
                )].id == id,
                forall|j: int|
                    0 <= j < find_id(self.active@, id) ==> (#[trigger] self.active@[j]).id != id,
                has_id(self.active@, id) == (find_id(self.active@, id) < self.active@.len()),
            decreases self.active@.len() - i,
        {
            if self.active[i].id == id {
                return Some(i);
            }
            i = i + 1;
        }
        None
    }

    /// Inserts `n` after all active entries of equal-or-higher priority and before
    /// the first lower-priority one.
    fn insert_active(&mut self, n: Notification)
        ensures
            final(self)@ == (DaemonView { active: inserted(old(self)@.active, n), ..old(self)@ }),
    {
        let rank: u8 = priority_disc(n.priority);
        let mut i: usize = 0;
        proof {
            lemma_slot(self.active@, n.priority);
        }
        while i < self.active.len() && priority_disc(self.active[i].priority) >= rank
            invariant
                i <= self.active@.len(),
                i <= slot(self.active@, n.priority) <= self.active@.len(),
                self.active@ == old(self).active@,
                self.history@ == old(self).history@,
                self.history_cap == old(self).history_cap,
                rank == n.priority.rank(),
                slot(self.active@, n.priority) < self.active@.len() ==> self.active@[slot(
                    self.active@,
                    n.priority,
                )].priority.rank() < n.priority.rank(),
                forall|j: int|
                    0 <= j < slot(self.active@, n.priority) ==> (
                    #[trigger] self.active@[j]).priority.rank() >= n.priority.rank(),
            decreases self.active@.len() - i,
        {
            i = i + 1;
        }
        assert(i == slot(self.active@, n.priority));
        self.active.insert(i, n);
    }

    fn post(&mut self, n: Notification) -> (r: NotificationEvent)
        requires
            old(self).wf(),
        ensures
            final(self).wf(),
            final(self)@ == handled(old(self)@, NotificationRequest::Post(n)).0,
            r == handled(old(self)@, NotificationRequest::Post(n)).1,
    {
        let id: u64 = n.id;
        proof {
            lemma_removed(self.active@, id);
            lemma_inserted(removed(self.active@, id), n);
        }
        // A post with an existing id supersedes it.
        if let Some(i) = self.position(id) {
            self.active.remove(i);
        }
        assert(self@.active == removed(old(self)@.active, id));
        self.insert_active(n);
        NotificationEvent::Posted(id)
    }

    fn replace(&mut self, n: Notification) -> (r: NotificationEvent)
        requires
            old(self).wf(),
        ensures
            final(self).wf(),
            final(self)@ == handled(old(self)@, NotificationRequest::Replace(n)).0,
            r == handled(old(self)@, NotificationRequest::Replace(n)).1,
    {
        let id: u64 = n.id;
        if let Some(i) = self.position(id) {
            let rank: u8 = priority_disc(n.priority);
            let above_ok = i == 0 || priority_disc(self.active[i - 1].priority) >= rank;
            let below_ok = self.active.len() - i <= 1 || rank >= priority_disc(
                self.active[i + 1].priority,
            );
            let ghost s = self.active@;
            let ghost in_place = s.update(i as int, n);
            proof {
                assert forall|a: int, b: int|
                    #![trigger in_place[a], in_place[b]]
                    above_ok && below_ok && 0 <= a < b < in_place.len() implies
                    in_place[a].priority.rank() >= in_place[b].priority.rank() by {
                    if a == i {
                        assert(s[i + 1].priority.rank() >= s[b].priority.rank());
                    } else if b == i {
                        assert(s[a].priority.rank() >= s[i - 1].priority.rank());
                    } else {
                        assert(s[a].priority.rank() >= s[b].priority.rank());
                    }
                }
                if !above_ok {
                    assert(in_place[i - 1] == s[i - 1] && in_place[i as int] == n);
                    assert(!by_priority(in_place));
                }
                if !below_ok {
                    assert(in_place[i + 1] == s[i + 1] && in_place[i as int] == n);
                    assert(!by_priority(in_place));
                }
            }
            if above_ok && below_ok {
                self.active.set(i, n);
                proof {
                    assert forall|a: int, b: int|
                        #![trigger in_place[a], in_place[b]]
                        0 <= a < b < in_place.len() implies in_place[a].id != in_place[b].id by {
                        assert(s[a].id != s[b].id);
                    }
                }
            } else {
                proof {
                    lemma_removed(s, id);
                    lemma_inserted(removed(s, id), n);
                }
                self.active.remove(i);
                self.insert_active(n);
            }
            NotificationEvent::Replaced(id)
        } else {
            NotificationEvent::NotFound(id)
        }
    }

    fn dismiss(&mut self, id: u64) -> (r: NotificationEvent)
        requires
            old(self).wf(),
        ensures
            final(self).wf(),
            final(self)@ == handled(old(self)@, NotificationRequest::Dismiss(id)).0,
            r == handled(old(self)@, NotificationRequest::Dismiss(id)).1,
    {
        if let Some(i) = self.position(id) {
            proof {
                lemma_removed(self.active@, id);
            }
            let n = self.active.remove(i);
            self.push_history(n, None);
            NotificationEvent::Dismissed(id)
        } else {
            NotificationEvent::NotFound(id)
        }
    }

    fn action(&mut self, id: u64, key: String) -> (r: NotificationEvent)
        requires
            old(self).wf(),
        ensures
            final(self).wf(),
            final(self)@ == handled(old(self)@, NotificationRequest::Action { id, key }).0,
            r == handled(old(self)@, NotificationRequest::Action { id, key }).1,
    {
        // The action must exist on the notification.
        if let Some(i) = self.position(id) {
            if has_action(&self.active[i], key.as_str()) {
                proof {
                    lemma_removed(self.active@, id);
                }
                let n = self.active.remove(i);
                self.push_history(n, Some(key.clone()));
                return NotificationEvent::ActionInvoked { id, key };
            }
        }
        NotificationEvent::NotFound(id)
    }

    /// Appends to history, evicting the oldest entries past the cap.
    fn push_history(&mut self, notification: Notification, resolved_action: Option<String>)
        requires
            1 <= old(self)@.cap,
            old(self)@.history.len() <= old(self)@.cap,
        ensures
            final(self)@ == (DaemonView {
                history: crate::lists::newest(
                    old(self)@.history.push(HistoryEntry { notification, resolved_action }),
                    old(self)@.cap,
                ),
                ..old(self)@
            }),
    {
        self.history.push(HistoryEntry { notification, resolved_action });
        let ghost all = self.history@;
        if self.history.len() > self.history_cap {
            self.history.remove(0);
            assert(self.history@ == all.skip(1));
        }
    }

    /// The active notifications, highest priority first (the toast stack).
    pub fn active(&self) -> (r: &[Notification])
        ensures
            r@ == self@.active,
    {
        self.active.as_slice()
    }

    /// The highest-priority active notification (the next toast to show), if any.
    pub fn next_toast(&self) -> (r: Option<&Notification>)
        requires
            self.wf(),
        ensures
            match r {
                Some(n) => self@.active.len() > 0 && *n == self@.active[0] && forall|i: int|
                    0 <= i < self@.active.len() ==> n.priority.rank() >= (
                    #[trigger] self@.active[i]).priority.rank(),
                None => self@.active.len() == 0,
            },
    {
        if self.active.len() == 0 {
            None
        } else {
            Some(&self.active[0])
        }
    }

    /// The browsable history, oldest first, newest last.
    pub fn history(&self) -> (r: &[HistoryEntry])
        ensures
            r@ == self@.history,
    {
        self.history.as_slice()
    }

    /// Serializes the history to a portable byte blob so it can be persisted to disk.
    /// [`NotificationDaemon::import_history`] restores it.
    pub fn export_history(&self) -> (r: Vec<u8>)
        ensures
            r@ == exported(entries(self@.history)),
    {
        let mut out: Vec<u8> = Vec::new();
        let ghost es = entries(self.history@);
        crate::codec::put_le(&mut out, self.history.len() as u64, 4);
        let ghost head = out@;
        let mut i: usize = 0;
        assert(es.skip(0) == es);
        while i < self.history.len()
            invariant
                i <= self.history@.len(),
                es == entries(self.history@),
                head + entries_bytes(es) == out@ + entries_bytes(es.skip(i as int)),
            decreases self.history@.len() - i,
        {
            let ghost before = out@;
            let e = &self.history[i];
            assert(es[i as int] == e@);
            encode_entry(&mut out, e);
            proof {
                let rest = es.skip(i as int);
                assert(rest[0] == e@);
                assert(rest.drop_first() == es.skip(i + 1));
                crate::lists::lemma_assoc(
                    before,
                    entry_bytes(e@),
                    entries_bytes(es.skip(i + 1)),
                );
            }
            i = i + 1;
        }
        proof {
            assert(es.skip(i as int) =~= Seq::empty());
            assert(out@ + Seq::<u8>::empty() == out@);
            assert(Seq::<u8>::empty() + crate::codec::le_bytes(es.len(), 4) == head);
        }
        out
    }

    /// Restores the history from a [`NotificationDaemon::export_history`] blob,
    /// replacing the current history (and re-applying the cap). Returns `false`
    /// (leaving the history untouched) if the blob is malformed.
    pub fn import_history(&mut self, bytes: &[u8]) -> (r: bool)
        requires
            old(self).wf(),
        ensures
            final(self).wf(),
            final(self)@.active == old(self)@.active,
            final(self)@.cap == old(self)@.cap,
            match imported(bytes@) {
                Some(es) => r && entries(final(self)@.history) == crate::lists::newest(es, old(self)@.cap),
                None => !r && final(self)@ == old(self)@,
            },
    {
        let mut rd = ByteReader::new(bytes);
        let count: u64 = match rd.le(4) {
            Some(c) => c,
            None => {
                return false;
            },
        };
        let mut restored: Vec<HistoryEntry> = Vec::new();
        let mut k: u64 = 0;
        assert(entries(restored@) =~= Seq::empty());
        while k < count
            invariant
                k <= count,
                rd.wf(),
                *self == *old(self),
                self.wf(),
                imported(bytes@) == read_entries(
                    rd.rest(),
                    (count - k) as nat,
                    entries(restored@),
                ),
            decreases count - k,
        {
            let ghost before = entries(restored@);
            let notification = match decode_notification(&mut rd) {
                Some(n) => n,
                None => {
                    return false;
                },
            };
            let resolved_action = match rd.le(1) {
                Some(tag) => if tag == 0 {
                    None
                } else if tag == 1 {
                    match rd.string() {
                        Some(key) => Some(key),
                        None => {
                            return false;
                        },
                    }
                } else {
                    return false;
                },
                None => {
                    return false;
                },
            };
            restored.push(HistoryEntry { notification, resolved_action });
            assert(entries(restored@) =~= before.push(restored@.last()@));
            k = k + 1;
        }
        let ghost all = restored@;
        let len: usize = restored.len();
        if len > self.history_cap {
            restored = restored.split_off(len - self.history_cap);
        }
        self.history = restored;
        assert(self.history@ == crate::lists::newest(all, self@.cap));
        assert(entries(self.history@) =~= crate::lists::newest(entries(all), self@.cap));
        true
    }
}

// ---------------------------------------------------------------------------
// History byte format
// ---------------------------------------------------------------------------

/// What a notification says, apart from how it is stored.
pub struct NoteView {
    /// The id.
    pub id: u64,
    /// The posting application.
    pub app: Seq<char>,
    /// The title.
    pub title: Seq<char>,
    /// The body.
    pub body: Seq<char>,
    /// The urgency.
    pub priority: Priority,
    /// Key and label of each action.
    pub actions: Seq<(Seq<char>, Seq<char>)>,
}

/// What a history record says.
pub struct EntryView {
    /// The notification.
    pub note: NoteView,
    /// The action it was resolved by.
    pub action: Option<Seq<char>>,
}

impl Notification {
    /// What the notification says.
    pub open spec fn view(&self) -> NoteView {
        NoteView {
            id: self.id,
            app: self.app@,
            title: self.title@,
            body: self.body@,
            priority: self.priority,
            actions: action_texts(self.actions@),
        }
    }
}

impl HistoryEntry {
    /// What the record says.
    pub open spec fn view(&self) -> EntryView {
        EntryView {
            note: self.notification@,
            action: match self.resolved_action {
                Some(s) => Some(s@),
                None => None,
            },
        }
    }
}

/// Key and label of each action.
pub open spec fn action_texts(a: Seq<NotificationAction>) -> Seq<(Seq<char>, Seq<char>)> {
    a.map_values(|x: NotificationAction| (x.key@, x.label@))
}

/// What each history record says.
pub open spec fn entries(h: Seq<HistoryEntry>) -> Seq<EntryView> {
    h.map_values(|e: HistoryEntry| e@)
}

/// The bytes of a list of actions.
pub open spec fn actions_bytes(a: Seq<(Seq<char>, Seq<char>)>) -> Seq<u8>
    decreases a.len(),
{
    if a.len() == 0 {
        Seq::empty()
    } else {
        crate::codec::text_bytes(a[0].0) + crate::codec::text_bytes(a[0].1) + actions_bytes(
            a.drop_first(),
        )
    }
}

/// The bytes of a notification.
pub open spec fn note_bytes(n: NoteView) -> Seq<u8> {
    crate::codec::le_bytes(n.id as nat, 8) + crate::codec::le_bytes(n.priority.rank(), 1)
        + crate::codec::text_bytes(n.app) + crate::codec::text_bytes(n.title)
        + crate::codec::text_bytes(n.body) + crate::codec::le_bytes(n.actions.len(), 4)
        + actions_bytes(n.actions)
}

/// The bytes of how a notification was resolved.
pub open spec fn resolution_bytes(a: Option<Seq<char>>) -> Seq<u8> {
    match a {
        None => seq![0u8],
        Some(key) => seq![1u8] + crate::codec::text_bytes(key),
    }
}

/// The bytes of a history record.
pub open spec fn entry_bytes(e: EntryView) -> Seq<u8> {
    note_bytes(e.note) + resolution_bytes(e.action)
}

/// The bytes of a list of history records.
pub open spec fn entries_bytes(es: Seq<EntryView>) -> Seq<u8>
    decreases es.len(),
{
    if es.len() == 0 {
        Seq::empty()
    } else {
        entry_bytes(es[0]) + entries_bytes(es.drop_first())
    }
}

/// The blob of a history: the number of records, then the records.
pub open spec fn exported(es: Seq<EntryView>) -> Seq<u8> {
    crate::codec::le_bytes(es.len(), 4) + entries_bytes(es)
}

/// The priority that a number stands for.
pub open spec fn ranked(d: nat) -> Option<Priority> {
    if d == 0 {
        Some(Priority::Low)
    } else if d == 1 {
        Some(Priority::Normal)
    } else if d == 2 {
        Some(Priority::High)
    } else if d == 3 {
        Some(Priority::Critical)
    } else {
        None
    }
}

/// Reads `n` actions after those in `done`.
pub open spec fn read_actions(
    b: Seq<u8>,
    n: nat,
    done: Seq<(Seq<char>, Seq<char>)>,
) -> Option<(Seq<(Seq<char>, Seq<char>)>, Seq<u8>)>
    decreases n,
{
    if n == 0 {
        Some((done, b))
    } else {
        match crate::codec::read_text(b) {
            None => None,
            Some((key, b1)) => match crate::codec::read_text(b1) {
                None => None,
                Some((label, b2)) => read_actions(b2, (n - 1) as nat, done.push((key, label))),
            },
        }
    }
}

/// Reads the id and the priority of a notification.
pub open spec fn read_head(b: Seq<u8>) -> Option<((u64, Priority), Seq<u8>)> {
    match crate::codec::read_le(b, 8) {
        None => None,
        Some((id, b1)) => match crate::codec::read_le(b1, 1) {
            None => None,
            Some((d, b2)) => match ranked(d) {
                None => None,
                Some(p) => Some(((id as u64, p), b2)),
            },
        },
    }
}

/// Reads the three texts of a notification.
pub open spec fn read_texts(b: Seq<u8>) -> Option<((Seq<char>, Seq<char>, Seq<char>), Seq<u8>)> {
    match crate::codec::read_text(b) {
        None => None,
        Some((app, b1)) => match crate::codec::read_text(b1) {
            None => None,
            Some((title, b2)) => match crate::codec::read_text(b2) {
                None => None,
                Some((body, b3)) => Some(((app, title, body), b3)),
            },
        },
    }
}

/// Reads a notification.
#[verifier::opaque]
pub open spec fn read_note(b: Seq<u8>) -> Option<(NoteView, Seq<u8>)> {
    match read_head(b) {
        None => None,
        Some(((id, priority), b1)) => match read_texts(b1) {
            None => None,
            Some(((app, title, body), b2)) => match crate::codec::read_le(b2, 4) {
                None => None,
                Some((n, b3)) => match read_actions(b3, n, Seq::empty()) {
                    None => None,
                    Some((actions, b4)) => Some(
                        (NoteView { id, app, title, body, priority, actions }, b4),
                    ),
                },
            },
        },
    }
}

/// Reads how a notification was resolved.
pub open spec fn read_resolution(b: Seq<u8>) -> Option<(Option<Seq<char>>, Seq<u8>)> {
    match crate::codec::read_le(b, 1) {
        None => None,
        Some((tag, b1)) => if tag == 0 {
            Some((None, b1))
        } else if tag == 1 {
            match crate::codec::read_text(b1) {
                None => None,
                Some((key, b2)) => Some((Some(key), b2)),
            }
        } else {
            None
        },
    }
}

/// Reads `n` history records after those in `done`.
pub open spec fn read_entries(b: Seq<u8>, n: nat, done: Seq<EntryView>) -> Option<Seq<EntryView>>
    decreases n,
{
    if n == 0 {
        Some(done)
    } else {
        match read_note(b) {
            None => None,
            Some((note, b1)) => match read_resolution(b1) {
                None => None,
                Some((action, b2)) => read_entries(
                    b2,
                    (n - 1) as nat,
                    done.push(EntryView { note, action }),
                ),
            },
        }
    }
}

/// The history that a blob holds, if it is well formed. What follows the last record is ignored.
pub open spec fn imported(b: Seq<u8>) -> Option<Seq<EntryView>> {
    match crate::codec::read_le(b, 4) {
        None => None,
        Some((n, b1)) => read_entries(b1, n, Seq::empty()),
    }
}

/// Stable discriminant for a [`Priority`] in the byte format.
fn priority_disc(p: Priority) -> (r: u8)
    ensures
        r == p.rank(),
{
    match p {
        Priority::Low => 0,
        Priority::Normal => 1,
        Priority::High => 2,
        Priority::Critical => 3,
    }
}

/// Inverse of [`priority_disc`].
fn disc_priority(d: u64) -> (r: Option<Priority>)
    ensures
        r == ranked(d as nat),
{
    if d == 0 {
        Some(Priority::Low)
    } else if d == 1 {
        Some(Priority::Normal)
    } else if d == 2 {
        Some(Priority::High)
    } else if d == 3 {
        Some(Priority::Critical)
    } else {
        None
    }
}

fn has_action(n: &Notification, key: &str) -> (r: bool)
    ensures
        r == offers(*n, key@),
{
    let mut i: usize = 0;
    while i < n.actions.len()
        invariant
            i <= n.actions@.len(),
            forall|j: int| 0 <= j < i ==> (#[trigger] n.actions@[j]).key@ != key@,
        decreases n.actions@.len() - i,
    {
        if str_eq(n.actions[i].key.as_str(), key) {
            return true;
        }
        i = i + 1;
    }
    false
}

fn encode_notification(out: &mut Vec<u8>, n: &Notification)
    ensures
        final(out)@ == old(out)@ + note_bytes(n@),
{
    let ghost start = out@;
    put_u64(out, n.id);
    let disc: u8 = priority_disc(n.priority);
    crate::codec::put_le(out, disc as u64, 1);
    put_str(out, n.app.as_str());
    put_str(out, n.title.as_str());
    put_str(out, n.body.as_str());
    crate::codec::put_le(out, n.actions.len() as u64, 4);
    let ghost head = out@;
    let ghost acts = action_texts(n.actions@);
    let mut i: usize = 0;
    assert(acts.skip(0) == acts);
    while i < n.actions.len()
        invariant
            i <= n.actions@.len(),
            acts == action_texts(n.actions@),
            head + actions_bytes(acts) == out@ + actions_bytes(acts.skip(i as int)),
        decreases n.actions@.len() - i,
    {
        let ghost before = out@;
        put_str(out, n.actions[i].key.as_str());
        put_str(out, n.actions[i].label.as_str());
        proof {
            let rest = acts.skip(i as int);
            let k = crate::codec::text_bytes(acts[i as int].0);
            let l = crate::codec::text_bytes(acts[i as int].1);
            assert(rest[0] == acts[i as int]);
            assert(rest.drop_first() == acts.skip(i + 1));
            assert(before + (k + l + actions_bytes(acts.skip(i + 1))) == (before + k) + l
                + actions_bytes(acts.skip(i + 1)));
        }
        i = i + 1;
    }
    proof {
        assert(acts.skip(i as int) =~= Seq::empty());
        assert(out@ + Seq::<u8>::empty() == out@);
        assert(head + actions_bytes(acts) == start + note_bytes(n@));
    }
}

fn encode_entry(out: &mut Vec<u8>, e: &HistoryEntry)
    ensures
        final(out)@ == old(out)@ + entry_bytes(e@),
{
    let ghost start = out@;
    encode_notification(out, &e.notification);
    let ghost head = note_bytes(e.notification@);
    match &e.resolved_action {
        None => {
            out.push(0);
            assert((start + head).push(0u8) == (start + head) + seq![0u8]);
        },
        Some(key) => {
            out.push(1);
            put_str(out, key.as_str());
            let ghost text = crate::codec::text_bytes(key@);
            assert((start + head).push(1u8) + text == (start + head) + (seq![1u8] + text));
        },
    }
    proof {
        crate::lists::lemma_assoc(start, head, resolution_bytes(e@.action));
    }
}

fn decode_notification(rd: &mut ByteReader<'_>) -> (r: Option<Notification>)
    requires
        old(rd).wf(),
    ensures
        final(rd).wf(),
        match r {
            Some(n) => read_note(old(rd).rest()) == Some((n@, final(rd).rest())),
            None => read_note(old(rd).rest()) is None,
        },
{
    reveal(read_note);
    let id: u64 = match rd.le(8) {
        Some(x) => x,
        None => {
            return None;
        },
    };
    let priority = match rd.le(1) {
        Some(d) => match disc_priority(d) {
            Some(p) => p,
            None => {
                return None;
            },
        },
        None => {
            return None;
        },
    };
    let app = match rd.string() {
        Some(s) => s,
        None => {
            return None;
        },
    };
    let title = match rd.string() {
        Some(s) => s,
        None => {
            return None;
        },
    };
    let body = match rd.string() {
        Some(s) => s,
        None => {
            return None;
        },
    };
    let count: u64 = match rd.le(4) {
        Some(x) => x,
        None => {
            return None;
        },
    };
    let ghost from = rd.rest();
    let mut actions: Vec<NotificationAction> = Vec::new();
    let mut k: u64 = 0;
    assert(action_texts(actions@) =~= Seq::empty());
    while k < count
        invariant
            k <= count,
            rd.wf(),
            read_actions(from, count as nat, Seq::empty()) == read_actions(
                rd.rest(),
                (count - k) as nat,
                action_texts(actions@),
            ),
            read_actions(from, count as nat, Seq::empty()) is None ==> read_note(
                old(rd).rest(),
            ) is None,
        decreases count - k,
    {
        let ghost before = action_texts(actions@);
        let key = match rd.string() {
            Some(s) => s,
            None => {
                return None;
            },
        };
        let label = match rd.string() {
            Some(s) => s,
            None => {
                return None;
            },
        };
        actions.push(NotificationAction { key, label });
        assert(action_texts(actions@) =~= before.push((key@, label@)));
        k = k + 1;
    }
    Some(Notification { id, app, title, body, priority, actions })
}

/// Whether every text and list of a notification is short enough for its length prefix.
pub open spec fn note_fits(n: NoteView) -> bool {
    &&& crate::codec::fits(n.app)
    &&& crate::codec::fits(n.title)
    &&& crate::codec::fits(n.body)
    &&& n.actions.len() < 0x1_0000_0000
    &&& forall|i: int|
        0 <= i < n.actions.len() ==> crate::codec::fits((#[trigger] n.actions[i]).0)
            && crate::codec::fits(n.actions[i].1)
}

/// Whether every text and list of a history record is short enough for its length prefix.
pub open spec fn entry_fits(e: EntryView) -> bool {
    note_fits(e.note) && (e.action matches Some(key) ==> crate::codec::fits(key))
}

/// Whether a history is short enough for the length prefixes of the byte format.
pub open spec fn history_fits(es: Seq<EntryView>) -> bool {
    es.len() < 0x1_0000_0000 && forall|i: int| 0 <= i < es.len() ==> entry_fits(#[trigger] es[i])
}

#[verifier::spinoff_prover]
proof fn lemma_read_actions(
    a: Seq<(Seq<char>, Seq<char>)>,
    done: Seq<(Seq<char>, Seq<char>)>,
    tail: Seq<u8>,
)
    requires
        forall|i: int|
            0 <= i < a.len() ==> crate::codec::fits((#[trigger] a[i]).0) && crate::codec::fits(
                a[i].1,
            ),
    ensures
        read_actions(actions_bytes(a) + tail, a.len(), done) == Some((done + a, tail)),
    decreases a.len(),
{
    if a.len() == 0 {
        assert(actions_bytes(a) + tail == tail);
        assert(done + a == done);
    } else {
        let rest = a.drop_first();
        let k = crate::codec::text_bytes(a[0].0);
        let l = crate::codec::text_bytes(a[0].1);
        let more = actions_bytes(rest) + tail;
        assert(actions_bytes(a) + tail == k + (l + more)) by {
            crate::lists::lemma_assoc(k + l, actions_bytes(rest), tail);
            crate::lists::lemma_assoc(k, l, more);
        }
        assert forall|i: int| 0 <= i < rest.len() implies crate::codec::fits(
            (#[trigger] rest[i]).0,
        ) && crate::codec::fits(rest[i].1) by {
            assert(rest[i] == a[i + 1]);
        }
        assert(crate::codec::fits(a[0].0) && crate::codec::fits(a[0].1));
        crate::codec::lemma_read_text(a[0].0, l + more);
        crate::codec::lemma_read_text(a[0].1, more);
        lemma_read_actions(rest, done.push(a[0]), tail);
        assert(done.push((a[0].0, a[0].1)) == done.push(a[0]));
        assert(read_actions(k + (l + more), a.len(), done) == read_actions(
            more,
            rest.len(),
            done.push(a[0]),
        ));
        assert(done.push(a[0]) + rest == done + a);
    }
}

proof fn lemma_read_note(n: NoteView, tail: Seq<u8>)
    requires
        note_fits(n),
    ensures
        read_note(note_bytes(n) + tail) == Some((n, tail)),
{
    reveal(read_note);
    crate::codec::lemma_limits();
    let b0 = crate::codec::le_bytes(n.id as nat, 8);
    let b1 = crate::codec::le_bytes(n.priority.rank(), 1);
    let b2 = crate::codec::text_bytes(n.app);
    let b3 = crate::codec::text_bytes(n.title);
    let b4 = crate::codec::text_bytes(n.body);
    let b5 = crate::codec::le_bytes(n.actions.len(), 4);
    let b6 = actions_bytes(n.actions);
    let r6 = b6 + tail;
    let r5 = b5 + r6;
    let r4 = b4 + r5;
    let r3 = b3 + r4;
    let r2 = b2 + r3;
    let r1 = b1 + r2;
    crate::lists::lemma_assoc(b0 + b1 + b2 + b3 + b4 + b5, b6, tail);
    crate::lists::lemma_assoc(b0 + b1 + b2 + b3 + b4, b5, r6);
    crate::lists::lemma_assoc(b0 + b1 + b2 + b3, b4, r5);
    crate::lists::lemma_assoc(b0 + b1 + b2, b3, r4);
    crate::lists::lemma_assoc(b0 + b1, b2, r3);
    crate::lists::lemma_assoc(b0, b1, r2);
    crate::codec::lemma_read_le(n.id as nat, 8, r1);
    crate::codec::lemma_read_le(n.priority.rank(), 1, r2);
    crate::codec::lemma_read_text(n.app, r3);
    crate::codec::lemma_read_text(n.title, r4);
    crate::codec::lemma_read_text(n.body, r5);
    crate::codec::lemma_read_le(n.actions.len(), 4, r6);
    lemma_read_actions(n.actions, Seq::empty(), tail);
    assert(Seq::<(Seq<char>, Seq<char>)>::empty() + n.actions == n.actions);
}

proof fn lemma_read_resolution(a: Option<Seq<char>>, tail: Seq<u8>)
    requires
        a matches Some(key) ==> crate::codec::fits(key),
    ensures
        read_resolution(resolution_bytes(a) + tail) == Some((a, tail)),
{
    crate::codec::lemma_limits();
    reveal_with_fuel(crate::codec::le_bytes, 2);
    match a {
        None => {
            crate::codec::lemma_read_le(0, 1, tail);
            assert(crate::codec::le_bytes(0, 1) =~= seq![0u8]);
        },
        Some(key) => {
            let more = crate::codec::text_bytes(key) + tail;
            crate::codec::lemma_read_le(1, 1, more);
            assert(crate::codec::le_bytes(1, 1) =~= seq![1u8]);
            assert(resolution_bytes(a) + tail == seq![1u8] + more);
            crate::codec::lemma_read_text(key, tail);
        },
    }
}

proof fn lemma_read_entries(es: Seq<EntryView>, done: Seq<EntryView>, tail: Seq<u8>)
    requires
        forall|i: int| 0 <= i < es.len() ==> entry_fits(#[trigger] es[i]),
    ensures
        read_entries(entries_bytes(es) + tail, es.len(), done) == Some(done + es),
    decreases es.len(),
{
    if es.len() == 0 {
        assert(done + es == done);
    } else {
        let rest = es.drop_first();
        let more = entries_bytes(rest) + tail;
        assert(entry_fits(es[0]));
        let nb = note_bytes(es[0].note);
        let rb = resolution_bytes(es[0].action);
        crate::lists::lemma_assoc(nb + rb, entries_bytes(rest), tail);
        crate::lists::lemma_assoc(nb, rb, more);
        lemma_read_note(es[0].note, rb + more);
        lemma_read_resolution(es[0].action, more);
        assert forall|i: int| 0 <= i < rest.len() implies entry_fits(#[trigger] rest[i]) by {
            assert(rest[i] == es[i + 1]);
        }
        lemma_read_entries(rest, done.push(es[0]), tail);
        assert(done.push(es[0]) + rest == done + es);
    }
}

/// An exported history is imported as it was, whatever bytes follow it. Its strings and lists must
/// be short enough for their four-byte length prefixes.
pub proof fn law_history_round_trip(es: Seq<EntryView>, tail: Seq<u8>)
    requires
        history_fits(es),
    ensures
        imported(exported(es) + tail) == Some(es),
        imported(exported(es)) == Some(es),
{
    crate::codec::lemma_limits();
    let more = entries_bytes(es) + tail;
    assert(exported(es) + tail == crate::codec::le_bytes(es.len(), 4) + more);
    crate::codec::lemma_read_le(es.len(), 4, more);
    lemma_read_entries(es, Seq::empty(), tail);
    assert(Seq::<EntryView>::empty() + es == es);
    let none = Seq::<u8>::empty();
    crate::codec::lemma_read_le(es.len(), 4, entries_bytes(es));
    lemma_read_entries(es, Seq::empty(), none);
    assert(entries_bytes(es) + none == entries_bytes(es));
}

proof fn lemma_read_actions_more(
    b: Seq<u8>,
    n: nat,
    done: Seq<(Seq<char>, Seq<char>)>,
    tail: Seq<u8>,
)
    ensures
        read_actions(b, n, done) matches Some((a, rest)) ==> read_actions(b + tail, n, done)
            == Some((a, rest + tail)),
    decreases n,
{
    if n > 0 {
        crate::codec::lemma_read_text_more(b, tail);
        if let Some((key, b1)) = crate::codec::read_text(b) {
            crate::codec::lemma_read_text_more(b1, tail);
            if let Some((label, b2)) = crate::codec::read_text(b1) {
                lemma_read_actions_more(b2, (n - 1) as nat, done.push((key, label)), tail);
            }
        }
    }
}

proof fn lemma_read_texts_more(b: Seq<u8>, tail: Seq<u8>)
    ensures
        read_texts(b) matches Some((t, rest)) ==> read_texts(b + tail) == Some((t, rest + tail)),
{
    crate::codec::lemma_read_text_more(b, tail);
    if let Some((_, b1)) = crate::codec::read_text(b) {
        crate::codec::lemma_read_text_more(b1, tail);
        if let Some((_, b2)) = crate::codec::read_text(b1) {
            crate::codec::lemma_read_text_more(b2, tail);
        }
    }
}

proof fn lemma_read_head_more(b: Seq<u8>, tail: Seq<u8>)
    ensures
        read_head(b) matches Some((h, rest)) ==> read_head(b + tail) == Some((h, rest + tail)),
{
    crate::codec::lemma_read_le_more(b, 8, tail);
    if let Some((_, b1)) = crate::codec::read_le(b, 8) {
        crate::codec::lemma_read_le_more(b1, 1, tail);
    }
}

proof fn lemma_read_note_more(b: Seq<u8>, tail: Seq<u8>)
    ensures
        read_note(b) matches Some((n, rest)) ==> read_note(b + tail) == Some((n, rest + tail)),
{
    reveal(read_note);
    lemma_read_head_more(b, tail);
    if let Some((_, b1)) = read_head(b) {
        lemma_read_texts_more(b1, tail);
        if let Some((_, b2)) = read_texts(b1) {
            crate::codec::lemma_read_le_more(b2, 4, tail);
            if let Some((n, b3)) = crate::codec::read_le(b2, 4) {
                lemma_read_actions_more(b3, n, Seq::empty(), tail);
            }
        }
    }
}

proof fn lemma_read_resolution_more(b: Seq<u8>, tail: Seq<u8>)
    ensures
        read_resolution(b) matches Some((a, rest)) ==> read_resolution(b + tail) == Some(
            (a, rest + tail),
        ),
{
    crate::codec::lemma_read_le_more(b, 1, tail);
    if let Some((_, b1)) = crate::codec::read_le(b, 1) {
        crate::codec::lemma_read_text_more(b1, tail);
    }
}

/// Records that end too early are not read.
proof fn lemma_read_cut_entries(
    es: Seq<EntryView>,
    done: Seq<EntryView>,
    b: Seq<u8>,
    tail: Seq<u8>,
)
    requires
        forall|i: int| 0 <= i < es.len() ==> entry_fits(#[trigger] es[i]),
        tail.len() > 0,
        b + tail == entries_bytes(es),
    ensures
        read_entries(b, es.len(), done) is None,
    decreases es.len(),
{
    assert((b + tail).len() > 0);
    let rest = es.drop_first();
    let more = entries_bytes(rest);
    assert(entry_fits(es[0]));
    let nb = note_bytes(es[0].note);
    let rb = resolution_bytes(es[0].action);
    crate::lists::lemma_assoc(nb, rb, more);
    lemma_read_note(es[0].note, rb + more);
    lemma_read_note_more(b, tail);
    if let Some((note, b1)) = read_note(b) {
        assert(b1 + tail == rb + more);
        lemma_read_resolution(es[0].action, more);
        lemma_read_resolution_more(b1, tail);
        if let Some((action, b2)) = read_resolution(b1) {
            assert(b2 + tail == more);
            assert forall|i: int| 0 <= i < rest.len() implies entry_fits(#[trigger] rest[i]) by {
                assert(rest[i] == es[i + 1]);
            }
            lemma_read_cut_entries(rest, done.push(EntryView { note, action }), b2, tail);
        }
    }
}

/// An exported history that was cut short is refused, wherever the cut is.
pub proof fn law_truncated_history_is_refused(es: Seq<EntryView>, k: int)
    requires
        history_fits(es),
        0 <= k < exported(es).len(),
    ensures
        imported(exported(es).take(k)) is None,
{
    let all = exported(es);
    let b = all.take(k);
    let tail = all.skip(k);
    assert(b + tail == all);
    crate::codec::lemma_limits();
    crate::codec::lemma_read_le(es.len(), 4, entries_bytes(es));
    crate::codec::lemma_read_le_more(b, 4, tail);
    if let Some((_, b1)) = crate::codec::read_le(b, 4) {
        assert(b1 + tail == entries_bytes(es));
        lemma_read_cut_entries(es, Seq::empty(), b1, tail);
    }
}

/// A notification that is inserted is found where it was put.
#[verifier::spinoff_prover]
proof fn lemma_found_inserted(active: Seq<Notification>, n: Notification)
    requires
        by_priority(active),
        distinct_ids(active),
    ensures
        ({
            let rest = removed(active, n.id);
            let k = find_id(inserted(rest, n), n.id) as int;
            &&& 0 <= k < inserted(rest, n).len()
            &&& inserted(rest, n)[k] == n
            &&& inserted(rest, n).remove(k) == rest
        }),
{
    let rest = removed(active, n.id);
    lemma_removed(active, n.id);
    lemma_inserted(rest, n);
    lemma_slot(rest, n.priority);
    let all = inserted(rest, n);
    let k = slot(rest, n.priority);
    assert(all[k] == n);
    lemma_find_id(all, n.id);
    let f = find_id(all, n.id);
    assert(f == k) by {
        if f != k {
            assert(all[f].id == all[k].id);
        }
    }
    assert(all.remove(k) =~= rest);
}

/// A notification that is posted and dismissed is the newest of the history and no longer active,
/// and the other active notifications are as before.
#[verifier::spinoff_prover]
pub proof fn law_post_then_dismiss(d: DaemonView, n: Notification)
    requires
        by_priority(d.active),
        distinct_ids(d.active),
        1 <= d.cap,
    ensures
        ({
            let posted = handled(d, NotificationRequest::Post(n)).0;
            let (after, event) = handled(posted, NotificationRequest::Dismiss(n.id));
            &&& event == NotificationEvent::Dismissed(n.id)
            &&& after.active == removed(d.active, n.id)
            &&& after.history.len() > 0
            &&& after.history.last().notification == n
            &&& after.history.last().resolved_action is None
        }),
{
    lemma_found_inserted(d.active, n);
}

// ---------------------------------------------------------------------------
// Toast
// ---------------------------------------------------------------------------

/// The accent colour of an urgency: petrol for low and normal, goldenrod for high, brick for
/// critical.
pub open spec fn accent_color(priority: Priority, palette: Palette) -> u32 {
    match priority {
        Priority::Low | Priority::Normal => palette.petrol_500,
        Priority::High => palette.status_warning,
        Priority::Critical => palette.brick_500,
    }
}

/// Whether a toast lies where its parts have machine coordinates.
pub open spec fn toast_fits(theme: Theme, rect: Rect) -> bool {
    &&& 2 * theme.radius <= u32::MAX
    &&& rect.y + theme.radius <= i32::MAX
    &&& rect.x + theme.padding + 6 <= i32::MAX
    &&& theme.padding + 6 <= i32::MAX
    &&& theme.radius <= i32::MAX
    &&& 8 * theme.text_scale + theme.spacing <= i32::MAX
    &&& rect.y + theme.padding <= i32::MAX
    &&& rect.y + theme.padding + 8 * theme.text_scale + theme.spacing <= i32::MAX
}

/// What is drawn for a toast: an elevated card, the accent stripe down its left edge, the title and
/// the body.
pub open spec fn toast_inks(n: NoteView, theme: Theme, palette: Palette, rect: Rect) -> Seq<
    crate::paint::Ink,
> {
    let stripe = Rect {
        x: rect.x,
        y: (rect.y + theme.radius) as i32,
        w: 4,
        h: crate::geometry::cut(rect.h as int, 2 * theme.radius) as u32,
    };
    let x = rect.x + theme.padding + 6;
    let y = rect.y + theme.padding;
    seq![
        crate::paint::Ink::Shadow(rect, theme.elevation),
        crate::paint::Ink::Rounded(rect, theme.radius, palette.cream_50),
        crate::paint::Ink::Rounded(stripe, 1, accent_color(n.priority, palette)),
        crate::paint::Ink::Text(x, y, n.title, palette.charcoal_800, theme.text_scale),
        crate::paint::Ink::Text(
            x,
            y + 8 * theme.text_scale + theme.spacing,
            n.body,
            palette.charcoal_500,
            theme.text_scale,
        ),
    ]
}

impl Notification {
    /// The accent colour for this notification's urgency: petrol for low/normal, goldenrod for
    /// high, brick for critical.
    pub fn accent(&self, palette: &Palette) -> (r: u32)
        ensures
            r == accent_color(self.priority, *palette),
    {
        match self.priority {
            Priority::Low | Priority::Normal => palette.petrol_500,
            Priority::High => palette.status_warning,
            Priority::Critical => palette.brick_500,
        }
    }

    /// What the notification draws as a branded toast card inside `rect`.
    ///
    /// An elevated rounded cream card (soft shadow) with a priority-coloured accent stripe down the
    /// left edge, the title in charcoal, and the body in the secondary text colour beneath it.
    pub fn plan(&self, theme: &Theme, palette: &Palette, rect: &Rect) -> (r: Vec<DrawOp>)
        requires
            toast_fits(*theme, *rect),
        ensures
            crate::paint::inks_of(r@) == toast_inks(self@, *theme, *palette, *rect),
    {
        let card = *rect;
        let mut ops: Vec<DrawOp> = Vec::new();
        ops.push(DrawOp::Shadow { rect: card, shadow: theme.elevation });
        ops.push(DrawOp::RoundedRect { rect: card, radius: theme.radius, color: palette.cream_50 });
        let both: u32 = 2 * theme.radius;
        let stripe = Rect {
            x: card.x,
            y: card.y + theme.radius as i32,
            w: 4,
            h: if card.h < both {
                0
            } else {
                card.h - both
            },
        };
        ops.push(DrawOp::RoundedRect { rect: stripe, radius: 1, color: self.accent(palette) });
        let x: i32 = card.x + (theme.padding + 6) as i32;
        let title_y: i32 = card.y + theme.padding as i32;
        ops.push(
            DrawOp::Text {
                x,
                y: title_y,
                text: self.title.clone(),
                color: palette.charcoal_800,
                scale: theme.text_scale,
            },
        );
        let line: u32 = 8 * theme.text_scale + theme.spacing;
        let body_y: i32 = title_y + line as i32;
        ops.push(
            DrawOp::Text {
                x,
                y: body_y,
                text: self.body.clone(),
                color: palette.charcoal_500,
                scale: theme.text_scale,
            },
        );
        assert(crate::paint::inks_of(ops@) =~= toast_inks(self@, *theme, *palette, card));
        ops
    }

    /// Renders this notification as a branded toast card inside `rect`.
    pub fn render<
        C: Fn(Rect, u32, i32, i32) -> u8,
        G: Fn(Rect, Shadow) -> Rect,
        A: Fn(Rect, Shadow, i32, i32) -> u8,
        B: Fn(u32, u32) -> u32,
    >(
        &self,
        canvas: &mut Canvas<'_>,
        theme: &Theme,
        palette: &Palette,
        rect: &Rect,
        fx: &Effects<C, G, A, B>,
    )
        requires
            old(canvas).wf(),
            fx.total(),
            toast_fits(*theme, *rect),
        ensures
            final(canvas).wf(),
            final(canvas).w() == old(canvas).w(),
            final(canvas).h() == old(canvas).h(),
            final(final(canvas).buffer())@ == final(old(canvas).buffer())@,
            fx.all_drawn(
                old(canvas).pix(),
                final(canvas).pix(),
                old(canvas).w(),
                toast_inks(self@, *theme, *palette, *rect),
            ),
    {
        let ops = self.plan(theme, palette, rect);
        paint(canvas, ops.as_slice(), fx);
    }
}

/// The notifications with other ids.
pub open spec fn others(s: Seq<Notification>, id: u64) -> Seq<Notification> {
    s.filter(|n: Notification| n.id != id)
}

proof fn lemma_others_absent(s: Seq<Notification>, id: u64)
    requires
        !has_id(s, id),
    ensures
        others(s, id) == s,
    decreases s.len(),
{
    reveal(Seq::filter);
    if s.len() > 0 {
        let t = s.drop_last();
        assert(s.last().id != id) by {
            assert(s[s.len() - 1].id != id);
        }
        assert forall|i: int| 0 <= i < t.len() implies (#[trigger] t[i]).id != id by {
            assert(t[i] == s[i]);
        }
        lemma_others_absent(t, id);
        assert(s =~= t.push(s.last()));
    } else {
        assert(others(s, id) =~= s);
    }
}

proof fn lemma_others_removed(s: Seq<Notification>, id: u64)
    requires
        distinct_ids(s),
    ensures
        removed(s, id) == others(s, id),
{
    lemma_find_id(s, id);
    if has_id(s, id) {
        let k = find_id(s, id);
        let a = s.take(k);
        let b = s.skip(k + 1);
        assert(s =~= a + (seq![s[k]] + b));
        assert(s.remove(k) =~= a + b);
        assert forall|i: int| 0 <= i < a.len() implies (#[trigger] a[i]).id != id by {
            assert(a[i] == s[i]);
        }
        assert forall|i: int| 0 <= i < b.len() implies (#[trigger] b[i]).id != id by {
            assert(b[i] == s[k + 1 + i]);
        }
        let f = |n: Notification| n.id != id;
        lemma_others_absent(a, id);
        lemma_others_absent(b, id);
        Seq::filter_distributes_over_add(a, seq![s[k]] + b, f);
        Seq::filter_distributes_over_add(seq![s[k]], b, f);
        assert(seq![s[k]].filter(f) =~= Seq::empty()) by {
            reveal_with_fuel(Seq::filter, 2);
            assert(seq![s[k]].drop_last() =~= Seq::empty());
        }
        assert(Seq::<Notification>::empty() + b =~= b);
    } else {
        lemma_others_absent(s, id);
    }
}

/// Whether `after` is `rest` with `n` at position `k`, behind all that are at least as urgent and
/// before all that are less so.
pub open spec fn takes_place(
    rest: Seq<Notification>,
    after: Seq<Notification>,
    n: Notification,
    k: int,
) -> bool {
    &&& 0 <= k <= rest.len()
    &&& after == rest.insert(k, n)
    &&& forall|i: int| 0 <= i < k ==> (#[trigger] rest[i]).priority.rank() >= n.priority.rank()
    &&& forall|i: int|
        k <= i < rest.len() ==> (#[trigger] rest[i]).priority.rank() < n.priority.rank()
}

/// A posted notification takes its place among the others, which stay as they were: behind those
/// that are at least as urgent, before the less urgent ones. One with the same id is superseded.
pub proof fn law_post_takes_its_place(d: DaemonView, n: Notification)
    requires
        by_priority(d.active),
        distinct_ids(d.active),
    ensures
        ({
            let after = handled(d, NotificationRequest::Post(n)).0;
            &&& exists|k: int| #[trigger]
                takes_place(others(d.active, n.id), after.active, n, k)
            &&& after.history == d.history
            &&& handled(d, NotificationRequest::Post(n)).1 == NotificationEvent::Posted(n.id)
        }),
{
    let rest = removed(d.active, n.id);
    lemma_removed(d.active, n.id);
    lemma_others_removed(d.active, n.id);
    lemma_slot(rest, n.priority);
    let k = slot(rest, n.priority);
    assert forall|i: int| k <= i < rest.len() implies (#[trigger] rest[i]).priority.rank()
        < n.priority.rank() by {
        assert(rest[k].priority.rank() >= rest[i].priority.rank());
    }
    let after = handled(d, NotificationRequest::Post(n)).0;
    assert(takes_place(others(d.active, n.id), after.active, n, k));
}

proof fn lemma_swapped(s: Seq<Notification>, n: Notification)
    requires
        distinct_ids(s),
        has_id(s, n.id),
    ensures
        ({
            let after = s.update(find_id(s, n.id), n);
            &&& after.contains(n)
            &&& others(after, n.id) == others(s, n.id)
        }),
{
    let id = n.id;
    lemma_find_id(s, id);
    let k = find_id(s, id);
    let after = s.update(k, n);
    assert(after[k] == n);
    assert forall|i: int, j: int|
        #![trigger after[i], after[j]]
        0 <= i < j < after.len() implies after[i].id != after[j].id by {
        assert(s[i].id != s[j].id);
    }
    lemma_others_removed(s, id);
    lemma_others_removed(after, id);
    lemma_find_id(after, id);
    assert(has_id(after, id));
    let m = find_id(after, id);
    if m != k {
        assert(after[m].id == after[k].id);
    }
    assert(after.remove(k) =~= s.remove(k));
}

proof fn lemma_others_inserted(rest: Seq<Notification>, n: Notification, at: int)
    requires
        !has_id(rest, n.id),
        0 <= at <= rest.len(),
    ensures
        others(rest.insert(at, n), n.id) == rest,
{
    let id = n.id;
    let a = rest.take(at);
    let b = rest.skip(at);
    let f = |m: Notification| m.id != id;
    assert(rest =~= a + b);
    assert(rest.insert(at, n) =~= a + (seq![n] + b));
    assert forall|i: int| 0 <= i < a.len() implies (#[trigger] a[i]).id != id by {
        assert(a[i] == rest[i]);
    }
    assert forall|i: int| 0 <= i < b.len() implies (#[trigger] b[i]).id != id by {
        assert(b[i] == rest[at + i]);
    }
    lemma_others_absent(a, id);
    lemma_others_absent(b, id);
    Seq::filter_distributes_over_add(a, seq![n] + b, f);
    Seq::filter_distributes_over_add(seq![n], b, f);
    assert(seq![n].filter(f) =~= Seq::empty()) by {
        reveal_with_fuel(Seq::filter, 2);
        assert(seq![n].drop_last() =~= Seq::empty());
    }
    assert(Seq::<Notification>::empty() + b =~= b);
}

#[verifier::spinoff_prover]
proof fn lemma_moved(s: Seq<Notification>, n: Notification)
    requires
        by_priority(s),
        distinct_ids(s),
        has_id(s, n.id),
    ensures
        ({
            let after = inserted(removed(s, n.id), n);
            &&& after.contains(n)
            &&& after.len() == s.len()
            &&& by_priority(after)
            &&& others(after, n.id) == others(s, n.id)
        }),
{
    let rest = removed(s, n.id);
    let at = slot(rest, n.priority);
    lemma_find_id(s, n.id);
    lemma_removed(s, n.id);
    lemma_slot(rest, n.priority);
    lemma_inserted(rest, n);
    lemma_others_removed(s, n.id);
    lemma_others_inserted(rest, n, at);
    assert(rest.insert(at, n)[at] == n);
}

/// Replacing changes only the notification with that id: the others stay as they were, and if the
/// urgency is the same the new one stands where the old one stood.
pub proof fn law_replace_keeps_the_others(d: DaemonView, n: Notification)
    requires
        by_priority(d.active),
        distinct_ids(d.active),
    ensures
        ({
            let (after, event) = handled(d, NotificationRequest::Replace(n));
            &&& !has_id(d.active, n.id) ==> after == d && event == NotificationEvent::NotFound(n.id)
            &&& has_id(d.active, n.id) ==> {
                &&& event == NotificationEvent::Replaced(n.id)
                &&& after.history == d.history
                &&& after.active.len() == d.active.len()
                &&& after.active.contains(n)
                &&& others(after.active, n.id) == others(d.active, n.id)
                &&& by_priority(after.active)
                &&& forall|k: int|
                    0 <= k < d.active.len() && (#[trigger] d.active[k]).id == n.id
                        && d.active[k].priority == n.priority ==> after.active == d.active.update(
                        k,
                        n,
                    )
            }
        }),
{
    let s = d.active;
    let id = n.id;
    lemma_find_id(s, id);
    if has_id(s, id) {
        let k = find_id(s, id);
        let in_place = s.update(k, n);
        lemma_swapped(s, n);
        lemma_moved(s, n);
        assert forall|j: int|
            0 <= j < s.len() && (#[trigger] s[j]).id == id && s[j].priority
                == n.priority implies replaced(s, n) == s.update(j, n) by {
            if j != k {
                assert(s[j].id == s[k].id);
            }
            assert forall|a: int, b: int|
                #![trigger in_place[a], in_place[b]]
                0 <= a < b < in_place.len() implies in_place[a].priority.rank()
                >= in_place[b].priority.rank() by {
                assert(s[a].priority.rank() >= s[b].priority.rank());
            }
        }
    }
}

/// A notification that is dismissed or acted on leaves the active set and becomes the newest of the
/// history, with the action that resolved it; the others stay active, and of the history only the
/// oldest is lost, if it was full.
pub proof fn law_resolving_moves_to_the_history(d: DaemonView, id: u64, action: Option<String>)
    requires
        distinct_ids(d.active),
        by_priority(d.active),
        has_id(d.active, id),
        1 <= d.cap,
        d.history.len() <= d.cap,
    ensures
        ({
            let after = resolved(d, id, action);
            &&& after.active == others(d.active, id)
            &&& after.cap == d.cap
            &&& after.history.len() > 0
            &&& after.history.last().notification.id == id
            &&& d.active.contains(after.history.last().notification)
            &&& after.history.last().resolved_action == action
            &&& after.history.drop_last() == (if d.history.len() < d.cap {
                d.history
            } else {
                d.history.drop_first()
            })
        }),
{
    lemma_find_id(d.active, id);
    lemma_others_removed(d.active, id);
    let after = resolved(d, id, action);
    assert(d.active.contains(d.active[find_id(d.active, id)]));
    if d.history.len() < d.cap {
        assert(after.history.drop_last() =~= d.history);
    } else {
        assert(after.history.drop_last() =~= d.history.drop_first());
    }
}

/// A request for a notification that is not active, or for an action that it does not offer, changes
/// nothing and is answered as such; an action that is offered is reported with its key.
pub proof fn law_unknown_requests_change_nothing(d: DaemonView, n: Notification, key: String)
    ensures
        ({
            let active = exists|i: int| 0 <= i < d.active.len() && (#[trigger] d.active[i]).id == n.id;
            let refused = (d, NotificationEvent::NotFound(n.id));
            let act = handled(d, NotificationRequest::Action { id: n.id, key });
            &&& !active ==> handled(d, NotificationRequest::Replace(n)) == refused && handled(
                d,
                NotificationRequest::Dismiss(n.id),
            ) == refused && act == refused
            &&& active ==> handled(d, NotificationRequest::Replace(n)).1
                == NotificationEvent::Replaced(n.id) && handled(
                d,
                NotificationRequest::Dismiss(n.id),
            ) == (resolved(d, n.id, None), NotificationEvent::Dismissed(n.id))
            &&& active && (forall|i: int|
                0 <= i < d.active[find_id(d.active, n.id)].actions@.len() ==> (
                #[trigger] d.active[find_id(d.active, n.id)].actions@[i]).key@ != key@) ==> act
                == refused
            &&& active && (exists|i: int|
                0 <= i < d.active[find_id(d.active, n.id)].actions@.len() && (
                #[trigger] d.active[find_id(d.active, n.id)].actions@[i]).key@ == key@) ==> act == (
                resolved(d, n.id, Some(key)),
                NotificationEvent::ActionInvoked { id: n.id, key },
            )
            &&& handled(d, NotificationRequest::Post(n)).1 == NotificationEvent::Posted(n.id)
        }),
{
}

} // verus!
