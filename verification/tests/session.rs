//! Login, lock and user switching.

use nexacore_ui::session::{Authenticator, SessionError, SessionManager, SessionView};

/// Accepts `secret == b"pw:" ++ user`.
struct StubAuth;
impl Authenticator for StubAuth {
    fn authenticate(&self, user: &str, secret: &[u8]) -> bool {
        let mut expected = vec![b'p', b'w', b':'];
        expected.extend_from_slice(user.as_bytes());
        secret == expected.as_slice()
    }
}

fn pw(user: &str) -> Vec<u8> {
    let mut v = vec![b'p', b'w', b':'];
    v.extend_from_slice(user.as_bytes());
    v
}

#[test]
fn login_requires_valid_credentials() {
    let mut sm = SessionManager::new(&["alice", "bob"], 0);
    assert_eq!(sm.view(), SessionView::Greeter);
    assert_eq!(sm.greeter_users(), ["alice", "bob"]);
    assert_eq!(
        sm.login("alice", b"wrong", &StubAuth),
        Err(SessionError::AuthFailed)
    );
    assert_eq!(sm.view(), SessionView::Greeter);
    sm.login("alice", &pw("alice"), &StubAuth).unwrap();
    assert_eq!(sm.view(), SessionView::Active("alice".to_string()));
}

#[test]
fn lock_and_unlock() {
    let mut sm = SessionManager::new(&["alice"], 0);
    sm.login("alice", &pw("alice"), &StubAuth).unwrap();
    sm.lock().unwrap();
    assert_eq!(sm.view(), SessionView::Locked("alice".to_string()));
    assert_eq!(
        sm.unlock(b"wrong", &StubAuth),
        Err(SessionError::AuthFailed)
    );
    assert_eq!(sm.view(), SessionView::Locked("alice".to_string()));
    sm.unlock(&pw("alice"), &StubAuth).unwrap();
    assert_eq!(sm.view(), SessionView::Active("alice".to_string()));
}

#[test]
fn idle_timeout_auto_locks() {
    let mut sm = SessionManager::new(&["alice"], 1000);
    sm.login("alice", &pw("alice"), &StubAuth).unwrap();
    assert!(!sm.tick_idle(500));
    assert_eq!(sm.view(), SessionView::Active("alice".to_string()));
    assert!(sm.tick_idle(500)); // reaches 1000 → locks
    assert_eq!(sm.view(), SessionView::Locked("alice".to_string()));
    // Activity before the threshold resets the clock.
    let mut sm2 = SessionManager::new(&["alice"], 1000);
    sm2.login("alice", &pw("alice"), &StubAuth).unwrap();
    sm2.tick_idle(900);
    sm2.activity();
    assert!(!sm2.tick_idle(500));
}

#[test]
fn fast_switch_and_logout() {
    let mut sm = SessionManager::new(&["alice", "bob"], 0);
    sm.login("alice", &pw("alice"), &StubAuth).unwrap();
    sm.lock().unwrap(); // alice stays running but locked
    sm.login("bob", &pw("bob"), &StubAuth).unwrap();
    assert_eq!(sm.view(), SessionView::Active("bob".to_string()));
    assert_eq!(sm.running_users(), ["alice", "bob"]);

    // Switch back to alice: her session is still locked.
    sm.switch_to("alice").unwrap();
    assert_eq!(sm.view(), SessionView::Locked("alice".to_string()));
    assert_eq!(sm.switch_to("carol"), Err(SessionError::NoSuchSession));

    // Logout returns to greeter and drops the session.
    sm.unlock(&pw("alice"), &StubAuth).unwrap();
    sm.logout().unwrap();
    assert_eq!(sm.view(), SessionView::Greeter);
    assert_eq!(sm.running_users(), ["bob"]);
}

#[test]
fn every_error_has_its_cause() {
    let mut sm = SessionManager::new(&["alice"], 0);
    assert_eq!(sm.lock(), Err(SessionError::NoActiveSession));
    assert_eq!(sm.logout(), Err(SessionError::NoActiveSession));
    assert_eq!(sm.reenter(true), Err(SessionError::NoActiveSession));
    assert_eq!(sm.switch_to("alice"), Err(SessionError::NoSuchSession));
    assert_eq!(sm.enter("alice", false), Err(SessionError::AuthFailed));
    assert_eq!(sm.enter("alice", true), Ok(()));
    sm.lock().unwrap();
    assert_eq!(sm.reenter(false), Err(SessionError::AuthFailed));
    assert_eq!(sm.reenter(true), Ok(()));
    // A timeout of zero never locks.
    assert!(!sm.tick_idle(u64::MAX));
}
