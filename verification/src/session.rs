//! Session manager: greeter, lock screen, idle-lock, fast switching.
//!
//! A state machine for the desktop session lifecycle. It presents a greeter (user list), starts and
//! stops sessions, locks and unlocks them behind authentication, auto-locks on idle, fast-switches
//! between concurrently logged-in users, and logs out back to the greeter. Credential checks go
//! through the [`Authenticator`] seam.

use vstd::prelude::*;

use crate::strings::str_eq;

verus! {

/// Credential-verification seam.
pub trait Authenticator {
    /// Whether `secret` authenticates `user`.
    fn authenticate(&self, user: &str, secret: &[u8]) -> bool;
}

/// Why a session operation failed.
#[derive(Debug, Clone, Copy, PartialEq, Eq, Structural)]
pub enum SessionError {
    /// Authentication was rejected.
    AuthFailed,
    /// No session is currently active.
    NoActiveSession,
    /// No session exists for the requested user.
    NoSuchSession,
}

/// A logged-in user's session.
#[derive(Debug, Clone, PartialEq, Eq)]
struct Session {
    user: String,
    locked: bool,
    idle_ms: u64,
}

/// What the shell should currently display.
#[derive(Debug, Clone, PartialEq, Eq)]
pub enum SessionView {
    /// The greeter (no active session).
    Greeter,
    /// The active session for a user.
    Active(String),
    /// The lock screen for a user's active session.
    Locked(String),
}

// ---------------------------------------------------------------------------
// Model
// ---------------------------------------------------------------------------

/// A running session.
pub struct Seat {
    /// The user.
    pub user: Seq<char>,
    /// Whether the session is locked.
    pub locked: bool,
    /// For how long the user has been idle.
    pub idle_ms: u64,
}

/// What the shell displays.
pub enum Screen {
    /// The greeter.
    Greeter,
    /// A user's session.
    Active(Seq<char>),
    /// A user's lock screen.
    Locked(Seq<char>),
}

/// The running sessions and the active one.
#[verifier::ext_equal]
pub struct Seats {
    /// The users of the greeter.
    pub users: Seq<Seq<char>>,
    /// The running sessions, in the order in which they started.
    pub seats: Seq<Seat>,
    /// The active session.
    pub active: Option<int>,
    /// After how long an idle session locks; never if 0.
    pub timeout: u64,
}

/// The position of the first session of a user, or the number of sessions.
pub open spec fn seat_at(seats: Seq<Seat>, user: Seq<char>) -> nat
    decreases seats.len(),
{
    if seats.len() == 0 || seats[0].user == user {
        0
    } else {
        1 + seat_at(seats.drop_first(), user)
    }
}

impl Seats {
    /// Whether no user has two sessions and the active session is a running one.
    pub open spec fn valid(self) -> bool {
        &&& self.active matches Some(i) ==> 0 <= i < self.seats.len()
        &&& forall|i: int, j: int|
            0 <= i < j < self.seats.len() ==> (#[trigger] self.seats[i]).user != (
            #[trigger] self.seats[j]).user
    }

    /// What the shell displays.
    pub open spec fn screen(self) -> Screen {
        match self.active {
            None => Screen::Greeter,
            Some(i) => if self.seats[i].locked {
                Screen::Locked(self.seats[i].user)
            } else {
                Screen::Active(self.seats[i].user)
            },
        }
    }

    /// Whether a user has a running session.
    pub open spec fn runs(self, user: Seq<char>) -> bool {
        seat_at(self.seats, user) < self.seats.len()
    }

    /// The sessions with the active one changed.
    pub open spec fn with_active(self, seat: Seat) -> Seats {
        Seats { seats: self.seats.update(self.active->Some_0, seat), ..self }
    }

    /// The active session.
    pub open spec fn current(self) -> Seat {
        self.seats[self.active->Some_0]
    }

    /// The sessions after a user was authenticated at the greeter: the user's session is active,
    /// unlocked and not idle; it starts if there was none.
    pub open spec fn entered(self, user: Seq<char>) -> Seats {
        let i = seat_at(self.seats, user) as int;
        let seat = Seat { user, locked: false, idle_ms: 0 };
        if self.runs(user) {
            Seats { seats: self.seats.update(i, seat), active: Some(i), ..self }
        } else {
            Seats {
                seats: self.seats.push(seat),
                active: Some(self.seats.len() as int),
                ..self
            }
        }
    }

    /// The sessions with the active one locked.
    pub open spec fn locked(self) -> Seats {
        self.with_active(Seat { locked: true, ..self.current() })
    }

    /// The sessions with the active one unlocked.
    pub open spec fn unlocked(self) -> Seats {
        self.with_active(Seat { locked: false, idle_ms: 0, ..self.current() })
    }

    /// Whether idle time counts: there is a timeout, and the active session is not locked.
    pub open spec fn counts_idle(self) -> bool {
        self.timeout != 0 && self.active is Some && !self.current().locked
    }

    /// For how long the active session is idle after some more time.
    pub open spec fn idle_after(self, delta_ms: u64) -> u64 {
        if self.current().idle_ms + delta_ms > u64::MAX {
            u64::MAX
        } else {
            (self.current().idle_ms + delta_ms) as u64
        }
    }

    /// Whether the active session locks after some more idle time.
    pub open spec fn times_out(self, delta_ms: u64) -> bool {
        self.counts_idle() && self.idle_after(delta_ms) >= self.timeout
    }

    /// The sessions after some more idle time.
    pub open spec fn ticked(self, delta_ms: u64) -> Seats {
        if self.counts_idle() {
            self.with_active(
                Seat {
                    idle_ms: self.idle_after(delta_ms),
                    locked: self.times_out(delta_ms),
                    ..self.current()
                },
            )
        } else {
            self
        }
    }

    /// The sessions after user activity.
    pub open spec fn touched(self) -> Seats {
        if self.active is Some {
            self.with_active(Seat { idle_ms: 0, ..self.current() })
        } else {
            self
        }
    }

    /// The sessions after a switch to a user, if the user has a running session.
    pub open spec fn switched(self, user: Seq<char>) -> Seats {
        if self.runs(user) {
            Seats { active: Some(seat_at(self.seats, user) as int), ..self }
        } else {
            self
        }
    }

    /// The sessions after the active one was logged out.
    pub open spec fn left(self) -> Seats {
        Seats { seats: self.seats.remove(self.active->Some_0), active: None, ..self }
    }
}

proof fn lemma_seat_at(seats: Seq<Seat>, user: Seq<char>)
    ensures
        seat_at(seats, user) <= seats.len(),
        forall|j: int| 0 <= j < seat_at(seats, user) ==> (#[trigger] seats[j]).user != user,
        seat_at(seats, user) < seats.len() ==> seats[seat_at(seats, user) as int].user == user,
    decreases seats.len(),
{
    if seats.len() > 0 && seats[0].user != user {
        let rest = seats.drop_first();
        lemma_seat_at(rest, user);
        assert forall|j: int| 0 <= j < seat_at(seats, user) implies (#[trigger] seats[j]).user
            != user by {
            if j > 0 {
                assert(rest[j - 1] == seats[j]);
            }
        }
    }
}

proof fn lemma_seat_is_at(seats: Seq<Seat>, user: Seq<char>, i: int)
    requires
        0 <= i <= seats.len(),
        forall|j: int| 0 <= j < i ==> (#[trigger] seats[j]).user != user,
        i < seats.len() ==> seats[i].user == user,
    ensures
        seat_at(seats, user) == i,
{
    lemma_seat_at(seats, user);
    let k = seat_at(seats, user) as int;
    if k < i {
        assert(seats[k].user != user);
    }
    if i < k {
        assert(seats[i].user != user);
    }
}

/// Every transition keeps the sessions valid: one per user, and the active one among them.
pub proof fn law_transitions_keep_the_sessions_valid(s: Seats, user: Seq<char>, delta_ms: u64)
    requires
        s.valid(),
    ensures
        s.entered(user).valid(),
        s.ticked(delta_ms).valid(),
        s.touched().valid(),
        s.switched(user).valid(),
        s.active is Some ==> s.locked().valid() && s.unlocked().valid() && s.left().valid(),
{
    lemma_seat_at(s.seats, user);
    let t = s.entered(user);
    assert forall|i: int, j: int| 0 <= i < j < t.seats.len() implies (#[trigger] t.seats[i]).user
        != (#[trigger] t.seats[j]).user by {
        if j < s.seats.len() {
            assert(s.seats[i].user != s.seats[j].user);
        } else {
            assert(t.seats[i] == s.seats[i]);
        }
    }
    if s.active is Some {
        let k = s.active->Some_0;
        let l = s.left();
        assert forall|i: int, j: int| 0 <= i < j < l.seats.len() implies (
        #[trigger] l.seats[i]).user != (#[trigger] l.seats[j]).user by {
            let p = if i < k {
                i
            } else {
                i + 1
            };
            let q = if j < k {
                j
            } else {
                j + 1
            };
            assert(s.seats[p].user != s.seats[q].user);
        }
        lemma_with_active(s, Seat { locked: true, ..s.current() });
        lemma_with_active(s, Seat { locked: false, idle_ms: 0, ..s.current() });
        lemma_with_active(s, Seat { idle_ms: 0, ..s.current() });
        lemma_with_active(
            s,
            Seat {
                idle_ms: s.idle_after(delta_ms),
                locked: s.times_out(delta_ms),
                ..s.current()
            },
        );
    }
}

proof fn lemma_with_active(s: Seats, seat: Seat)
    requires
        s.valid(),
        s.active is Some,
        seat.user == s.current().user,
    ensures
        s.with_active(seat).valid(),
{
    let t = s.with_active(seat);
    assert forall|i: int, j: int| 0 <= i < j < t.seats.len() implies (#[trigger] t.seats[i]).user
        != (#[trigger] t.seats[j]).user by {
        assert(s.seats[i].user != s.seats[j].user);
    }
}

/// Only authentication unlocks a session: idle time, activity, switching and locking leave every
/// locked session locked.
pub proof fn law_only_authentication_unlocks(s: Seats, user: Seq<char>, delta_ms: u64, i: int)
    requires
        s.valid(),
        0 <= i < s.seats.len(),
        s.seats[i].locked,
    ensures
        s.ticked(delta_ms).seats[i].locked,
        s.touched().seats[i].locked,
        s.switched(user).seats[i].locked,
        s.active is Some ==> s.locked().seats[i].locked,
{
}

/// Logging in shows the session of the user, whoever was active before, and keeps every other
/// session as it was.
pub proof fn law_login_shows_the_user(s: Seats, user: Seq<char>, i: int)
    requires
        s.valid(),
        0 <= i < s.seats.len(),
        s.seats[i].user != user,
    ensures
        s.entered(user).screen() == Screen::Active(user),
        s.entered(user).seats[i] == s.seats[i],
{
    lemma_seat_at(s.seats, user);
}

/// A lock shows the lock screen of the active user, an unlock the session again, and a logout the
/// greeter.
pub proof fn law_screens(s: Seats)
    requires
        s.valid(),
        s.active is Some,
    ensures
        s.locked().screen() == Screen::Locked(s.current().user),
        s.locked().unlocked().screen() == Screen::Active(s.current().user),
        s.left().screen() == Screen::Greeter,
{
}

// ---------------------------------------------------------------------------
// Manager
// ---------------------------------------------------------------------------

/// The session manager.
#[derive(Debug, Clone)]
pub struct SessionManager {
    users: Vec<String>,
    sessions: Vec<Session>,
    active: Option<usize>,
    idle_timeout_ms: u64,
}

impl Session {
    spec fn seat(&self) -> Seat {
        Seat { user: self.user@, locked: self.locked, idle_ms: self.idle_ms }
    }
}

spec fn seats_of(s: Seq<Session>) -> Seq<Seat> {
    s.map_values(|x: Session| x.seat())
}

/// What a view displays.
pub open spec fn screen_of(v: SessionView) -> Screen {
    match v {
        SessionView::Greeter => Screen::Greeter,
        SessionView::Active(u) => Screen::Active(u@),
        SessionView::Locked(u) => Screen::Locked(u@),
    }
}

impl SessionManager {
    /// The running sessions and the active one.
    pub closed spec fn state(&self) -> Seats {
        Seats {
            users: crate::lists::texts(self.users@),
            seats: seats_of(self.sessions@),
            active: match self.active {
                Some(i) => Some(i as int),
                None => None,
            },
            timeout: self.idle_timeout_ms,
        }
    }

    /// A manager for the greeter's `users`, auto-locking after `idle_timeout_ms` of inactivity (0
    /// disables idle-lock).
    pub fn new(users: &[&str], idle_timeout_ms: u64) -> (r: Self)
        ensures
            r.state() == (Seats {
                users: users@.map_values(|u: &str| u@),
                seats: Seq::empty(),
                active: None,
                timeout: idle_timeout_ms,
            }),
            r.state().valid(),
    {
        let mut owned: Vec<String> = Vec::new();
        let mut i: usize = 0;
        while i < users.len()
            invariant
                i <= users@.len(),
                owned@.len() == i,
                forall|j: int| 0 <= j < i ==> #[trigger] owned@[j]@ == users@[j]@,
            decreases users@.len() - i,
        {
            owned.push(users[i].to_owned());
            i = i + 1;
        }
        let r = SessionManager {
            users: owned,
            sessions: Vec::new(),
            active: None,
            idle_timeout_ms,
        };
        proof {
            assert(crate::lists::texts(r.users@) =~= users@.map_values(|u: &str| u@));
            assert(seats_of(r.sessions@) =~= Seq::empty());
        }
        r
    }

    /// The greeter's selectable user list.
    pub fn greeter_users(&self) -> (r: &[String])
        ensures
            crate::lists::texts(r@) == self.state().users,
    {
        self.users.as_slice()
    }

    /// What the shell should display.
    pub fn view(&self) -> (r: SessionView)
        requires
            self.state().valid(),
        ensures
            screen_of(r) == self.state().screen(),
    {
        match self.active {
            None => SessionView::Greeter,
            Some(i) => {
                let s = &self.sessions[i];
                assert(self.state().seats[i as int] == s.seat());
                if s.locked {
                    SessionView::Locked(s.user.clone())
                } else {
                    SessionView::Active(s.user.clone())
                }
            },
        }
    }

    /// The position of the session of `user`, or the number of sessions.
    fn session_index(&self, user: &str) -> (i: usize)
        ensures
            i <= self.sessions@.len(),
            i == seat_at(self.state().seats, user@),
    {
        let ghost seats = seats_of(self.sessions@);
        let mut i: usize = 0;
        while i < self.sessions.len() && !str_eq(self.sessions[i].user.as_str(), user)
            invariant
                i <= self.sessions@.len(),
                seats == seats_of(self.sessions@),
                forall|j: int| 0 <= j < i ==> (#[trigger] seats[j]).user != user@,
            decreases self.sessions@.len() - i,
        {
            i = i + 1;
        }
        proof {
            lemma_seat_is_at(seats, user@, i as int);
        }
        i
    }

    /// Makes the session of `user` active if the user's credential was accepted.
    ///
    /// # Errors
    ///
    /// [`SessionError::AuthFailed`] if it was not.
    pub fn enter(&mut self, user: &str, accepted: bool) -> (r: Result<(), SessionError>)
        requires
            old(self).state().valid(),
        ensures
            final(self).state().valid(),
            accepted ==> r is Ok && final(self).state() == old(self).state().entered(user@),
            !accepted ==> r == Err::<(), SessionError>(SessionError::AuthFailed)
                && final(self).state() == old(self).state(),
    {
        if !accepted {
            return Err(SessionError::AuthFailed);
        }
        let ghost before = self.state();
        let i: usize = self.session_index(user);
        if i < self.sessions.len() {
            self.sessions[i].locked = false;
            self.sessions[i].idle_ms = 0;
            proof {
                lemma_seat_at(before.seats, user@);
                assert(before.seats[i as int].user == user@);
            }
        } else {
            self.sessions.push(Session { user: user.to_owned(), locked: false, idle_ms: 0 });
        }
        self.active = Some(i);
        proof {
            assert(self.state().seats =~= before.entered(user@).seats);
            law_transitions_keep_the_sessions_valid(before, user@, 0);
        }
        Ok(())
    }

    /// Authenticate `user` from the greeter and make their session active, starting one if needed.
    /// An already-running session is unlocked and switched to (fast user switching).
    ///
    /// # Errors
    ///
    /// [`SessionError::AuthFailed`] if the credential is rejected.
    pub fn login<A: Authenticator>(&mut self, user: &str, secret: &[u8], auth: &A) -> (r: Result<
        (),
        SessionError,
    >)
        requires
            old(self).state().valid(),
        ensures
            final(self).state().valid(),
            match r {
                Ok(_) => call_ensures(A::authenticate, (auth, user, secret), true)
                    && final(self).state() == old(self).state().entered(user@),
                Err(e) => e == SessionError::AuthFailed && call_ensures(
                    A::authenticate,
                    (auth, user, secret),
                    false,
                ) && final(self).state() == old(self).state(),
            },
    {
        let accepted = auth.authenticate(user, secret);
        self.enter(user, accepted)
    }

    /// Lock the active session.
    ///
    /// # Errors
    ///
    /// [`SessionError::NoActiveSession`] if nothing is active.
    pub fn lock(&mut self) -> (r: Result<(), SessionError>)
        requires
            old(self).state().valid(),
        ensures
            final(self).state().valid(),
            old(self).state().active is Some ==> r is Ok && final(self).state()
                == old(self).state().locked(),
            old(self).state().active is None ==> r == Err::<(), SessionError>(
                SessionError::NoActiveSession,
            ) && final(self).state() == old(self).state(),
    {
        let ghost before = self.state();
        match self.active {
            None => Err(SessionError::NoActiveSession),
            Some(i) => {
                self.sessions[i].locked = true;
                proof {
                    assert(self.state().seats =~= before.locked().seats);
                    law_transitions_keep_the_sessions_valid(before, Seq::empty(), 0);
                }
                Ok(())
            },
        }
    }

    /// Unlocks the active session if the user's credential was accepted.
    ///
    /// # Errors
    ///
    /// [`SessionError::NoActiveSession`] if nothing is active, or [`SessionError::AuthFailed`] if
    /// the credential was not accepted.
    pub fn reenter(&mut self, accepted: bool) -> (r: Result<(), SessionError>)
        requires
            old(self).state().valid(),
        ensures
            final(self).state().valid(),
            old(self).state().active is None ==> r == Err::<(), SessionError>(
                SessionError::NoActiveSession,
            ) && final(self).state() == old(self).state(),
            old(self).state().active is Some && !accepted ==> r == Err::<(), SessionError>(
                SessionError::AuthFailed,
            ) && final(self).state() == old(self).state(),
            old(self).state().active is Some && accepted ==> r is Ok && final(self).state()
                == old(self).state().unlocked(),
    {
        let ghost before = self.state();
        match self.active {
            None => Err(SessionError::NoActiveSession),
            Some(i) => {
                if !accepted {
                    return Err(SessionError::AuthFailed);
                }
                self.sessions[i].locked = false;
                self.sessions[i].idle_ms = 0;
                proof {
                    assert(self.state().seats =~= before.unlocked().seats);
                    law_transitions_keep_the_sessions_valid(before, Seq::empty(), 0);
                }
                Ok(())
            },
        }
    }

    /// Unlock the active session with the user's credential.
    ///
    /// # Errors
    ///
    /// [`SessionError::NoActiveSession`] if nothing is active, or [`SessionError::AuthFailed`] if
    /// the credential is rejected.
    pub fn unlock<A: Authenticator>(&mut self, secret: &[u8], auth: &A) -> (r: Result<
        (),
        SessionError,
    >)
        requires
            old(self).state().valid(),
        ensures
            final(self).state().valid(),
            match r {
                Ok(_) => old(self).state().active is Some && final(self).state()
                    == old(self).state().unlocked() && exists|user: &str| #[trigger]
                    call_ensures(A::authenticate, (auth, user, secret), true) && user@
                        == old(self).state().current().user,
                Err(e) => final(self).state() == old(self).state() && if old(
                    self,
                ).state().active is None {
                    e == SessionError::NoActiveSession
                } else {
                    e == SessionError::AuthFailed && exists|user: &str| #[trigger]
                        call_ensures(A::authenticate, (auth, user, secret), false) && user@
                            == old(self).state().current().user
                },
            },
    {
        match self.active {
            None => Err(SessionError::NoActiveSession),
            Some(i) => {
                assert(self.state().seats[i as int] == self.sessions@[i as int].seat());
                let user = self.sessions[i].user.as_str();
                let accepted = auth.authenticate(user, secret);
                self.reenter(accepted)
            },
        }
    }

    /// Advance the idle clock of the active session by `delta_ms`; auto-locks it once the idle
    /// timeout is reached. Returns whether it locked.
    pub fn tick_idle(&mut self, delta_ms: u64) -> (r: bool)
        requires
            old(self).state().valid(),
        ensures
            final(self).state().valid(),
            final(self).state() == old(self).state().ticked(delta_ms),
            r == old(self).state().times_out(delta_ms),
    {
        let ghost before = self.state();
        proof {
            law_transitions_keep_the_sessions_valid(before, Seq::empty(), delta_ms);
        }
        if self.idle_timeout_ms == 0 {
            return false;
        }
        match self.active {
            None => false,
            Some(i) => {
                assert(before.seats[i as int] == self.sessions@[i as int].seat());
                if self.sessions[i].locked {
                    return false;
                }
                let idle: u64 = self.sessions[i].idle_ms.saturating_add(delta_ms);
                self.sessions[i].idle_ms = idle;
                let timed_out = idle >= self.idle_timeout_ms;
                if timed_out {
                    self.sessions[i].locked = true;
                }
                assert(self.state().seats =~= before.ticked(delta_ms).seats);
                timed_out
            },
        }
    }

    /// Register user activity, resetting the active session's idle clock.
    pub fn activity(&mut self)
        requires
            old(self).state().valid(),
        ensures
            final(self).state().valid(),
            final(self).state() == old(self).state().touched(),
    {
        let ghost before = self.state();
        proof {
            law_transitions_keep_the_sessions_valid(before, Seq::empty(), 0);
        }
        match self.active {
            None => {},
            Some(i) => {
                self.sessions[i].idle_ms = 0;
                assert(self.state().seats =~= before.touched().seats);
            },
        }
    }

    /// Fast-switch the active session to an already-running `user`. A locked target keeps its lock
    /// (the caller shows the lock screen).
    ///
    /// # Errors
    ///
    /// [`SessionError::NoSuchSession`] if `user` has no running session.
    pub fn switch_to(&mut self, user: &str) -> (r: Result<(), SessionError>)
        requires
            old(self).state().valid(),
        ensures
            final(self).state().valid(),
            final(self).state() == old(self).state().switched(user@),
            r == (if old(self).state().runs(user@) {
                Ok::<(), SessionError>(())
            } else {
                Err(SessionError::NoSuchSession)
            }),
    {
        let i: usize = self.session_index(user);
        if i == self.sessions.len() {
            return Err(SessionError::NoSuchSession);
        }
        self.active = Some(i);
        Ok(())
    }

    /// Log out the active session and return to the greeter.
    ///
    /// # Errors
    ///
    /// [`SessionError::NoActiveSession`] if nothing is active.
    pub fn logout(&mut self) -> (r: Result<(), SessionError>)
        requires
            old(self).state().valid(),
        ensures
            final(self).state().valid(),
            old(self).state().active is Some ==> r is Ok && final(self).state()
                == old(self).state().left(),
            old(self).state().active is None ==> r == Err::<(), SessionError>(
                SessionError::NoActiveSession,
            ) && final(self).state() == old(self).state(),
    {
        let ghost before = self.state();
        match self.active {
            None => Err(SessionError::NoActiveSession),
            Some(i) => {
                self.sessions.remove(i);
                self.active = None;
                proof {
                    assert(self.state().seats =~= before.left().seats);
                    law_transitions_keep_the_sessions_valid(before, Seq::empty(), 0);
                }
                Ok(())
            },
        }
    }

    /// The users with a currently running session (for fast-switch menus).
    pub fn running_users(&self) -> (r: Vec<&str>)
        ensures
            r@.map_values(|u: &str| u@) == self.state().seats.map_values(|s: Seat| s.user),
    {
        let mut out: Vec<&str> = Vec::new();
        let mut i: usize = 0;
        while i < self.sessions.len()
            invariant
                i <= self.sessions@.len(),
                out@.len() == i,
                forall|j: int| 0 <= j < i ==> #[trigger] out@[j]@ == self.sessions@[j].user@,
            decreases self.sessions@.len() - i,
        {
            out.push(self.sessions[i].user.as_str());
            i = i + 1;
        }
        assert(out@.map_values(|u: &str| u@) =~= self.state().seats.map_values(
            |s: Seat| s.user,
        ));
        out
    }
}

/// Idle time adds up: two spells without activity, of which the first does not lock the session,
/// are like one spell.
pub proof fn law_idle_time_adds_up(s: Seats, a: u64, b: u64)
    requires
        s.valid(),
        !s.times_out(a),
        a + b <= u64::MAX,
    ensures
        s.ticked(a).ticked(b) == s.ticked((a + b) as u64),
{
    let t = s.ticked(a);
    if s.counts_idle() {
        let k = s.active->Some_0;
        assert(t.current() == Seat { idle_ms: s.idle_after(a), locked: false, ..s.current() });
        assert(t.ticked(b).seats =~= s.ticked((a + b) as u64).seats);
        assert(t.ticked(b).seats[k] == s.ticked((a + b) as u64).seats[k]);
    }
}

/// After activity an unlocked session is locked once the timeout has passed, and not before; without
/// a timeout it never is.
pub proof fn law_idle_sessions_are_locked_in_time(s: Seats, delta_ms: u64)
    requires
        s.valid(),
        s.active is Some,
        !s.current().locked,
    ensures
        s.touched().ticked(delta_ms).screen() == (if s.timeout != 0 && delta_ms >= s.timeout {
            Screen::Locked(s.current().user)
        } else {
            Screen::Active(s.current().user)
        }),
{
    let k = s.active->Some_0;
    let t = s.touched();
    assert(t.current() == Seat { idle_ms: 0, ..s.current() });
}

/// Switching shows the session of the user if one runs and changes nothing otherwise, and no
/// session is touched by it.
pub proof fn law_switching_touches_no_session(s: Seats, user: Seq<char>)
    requires
        s.valid(),
    ensures
        s.switched(user).seats == s.seats,
        s.runs(user) <==> exists|i: int| 0 <= i < s.seats.len() && (#[trigger] s.seats[i]).user == user,
        !s.runs(user) ==> s.switched(user) == s,
        s.runs(user) ==> s.switched(user).active is Some && s.switched(user).current().user == user,
{
    lemma_seat_at(s.seats, user);
}

/// A logout ends the active session and no other.
pub proof fn law_logout_ends_one_session(s: Seats, user: Seq<char>)
    requires
        s.valid(),
        s.active is Some,
    ensures
        s.left().seats.len() == s.seats.len() - 1,
        s.left().runs(user) <==> s.runs(user) && user != s.current().user,
        s.left().runs(user) ==> s.left().seats[seat_at(s.left().seats, user) as int]
            == s.seats[seat_at(s.seats, user) as int],
{
    let l = s.left();
    let k = s.active->Some_0;
    lemma_seat_at(s.seats, user);
    lemma_seat_at(l.seats, user);
    let i = seat_at(s.seats, user) as int;
    let j = seat_at(l.seats, user) as int;
    if i < s.seats.len() && i != k {
        assert(s.seats[i].user != s.seats[k].user);
        let p = if i < k {
            i
        } else {
            i - 1
        };
        assert(l.seats[p] == s.seats[i]);
    }
    if j < l.seats.len() {
        let q = if j < k {
            j
        } else {
            j + 1
        };
        assert(l.seats[j] == s.seats[q]);
        assert(s.seats[q].user != s.seats[k].user);
        if q != i {
            assert(s.seats[q].user != s.seats[i].user);
        }
    }
}

} // verus!
