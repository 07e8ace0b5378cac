use std::sync::atomic::{AtomicU64, Ordering};
use std::sync::Arc;

use taktora::locks::{Clock, LockError, LockRegistry, RFC3339_LIMIT_MS};
use taktora::error::{client_id, client_id_opt, ApiError};
use taktora::model::EntityKind;

/// A clock the tests advance by hand, so TTL expiry is deterministic.
#[derive(Clone)]
struct TestClock(Arc<AtomicU64>);

impl TestClock {
    fn new(millis: u64) -> Self {
        Self(Arc::new(AtomicU64::new(millis)))
    }
    fn advance(&self, millis: u64) {
        self.0.fetch_add(millis, Ordering::SeqCst);
    }
}

impl Clock for TestClock {
    fn now_ms(&self) -> u64 {
        self.0.load(Ordering::SeqCst)
    }
}

fn key(id: &str) -> (EntityKind, String) {
    (EntityKind::Component, id.to_owned())
}

#[test]
fn acquire_then_second_client_conflicts() {
    let mut reg = LockRegistry::system();
    let lock = reg
        .acquire(key("c1"), "alice".to_owned(), 60_000, false, None)
        .unwrap()
        .expect("first acquire");
    assert!(lock.owned);
    assert!(lock.id.starts_with("lck-"));

    let conflict = reg.acquire(key("c1"), "bob".to_owned(), 60_000, false, None).unwrap();
    assert_eq!(conflict.unwrap_err(), LockError::Conflict);

    assert!(reg
        .acquire(key("c2"), "bob".to_owned(), 60_000, false, None)
        .unwrap()
        .is_ok());
}

#[test]
fn break_lock_evicts_incumbent() {
    let mut reg = LockRegistry::system();
    reg.acquire(key("c1"), "alice".to_owned(), 60_000, false, None)
        .unwrap()
        .expect("alice acquires");
    let stolen = reg
        .acquire(key("c1"), "bob".to_owned(), 60_000, true, None)
        .unwrap()
        .expect("break_lock acquires");
    assert!(stolen.owned);
}

#[test]
fn ttl_expiry_auto_releases() {
    let clock = TestClock::new(0);
    let mut reg = LockRegistry::with_clock(clock.clone());
    reg.acquire(key("c1"), "alice".to_owned(), 1_000, false, None)
        .unwrap()
        .expect("alice acquires for 1s");
    assert_eq!(
        reg.acquire(key("c1"), "bob".to_owned(), 1_000, false, None)
            .unwrap()
            .unwrap_err(),
        LockError::Conflict
    );
    clock.advance(1_500);
    assert!(reg
        .acquire(key("c1"), "bob".to_owned(), 1_000, false, None)
        .unwrap()
        .is_ok());
}

#[test]
fn ownership_enforced_on_extend_and_release() {
    let mut reg = LockRegistry::system();
    let lock = reg
        .acquire(key("c1"), "alice".to_owned(), 60_000, false, None)
        .unwrap()
        .expect("alice acquires");

    assert_eq!(
        reg.extend(&key("c1"), &lock.id, "bob", 60_000).unwrap().unwrap_err(),
        LockError::Conflict
    );
    assert_eq!(reg.release(&key("c1"), &lock.id, "bob").unwrap_err(), LockError::Conflict);

    assert_eq!(
        reg.extend(&key("c1"), "lck-999", "alice", 60_000).unwrap().unwrap_err(),
        LockError::NotFound
    );

    reg.extend(&key("c1"), &lock.id, "alice", 60_000)
        .unwrap()
        .expect("owner extends");
    reg.release(&key("c1"), &lock.id, "alice").expect("owner releases");
    assert!(
        reg.acquire(key("c1"), "bob".to_owned(), 60_000, false, None)
            .unwrap()
            .is_ok(),
        "resource is free after release"
    );
}

#[test]
fn reads_surface_live_lock_with_owner_view() {
    let clock = TestClock::new(0);
    let mut reg = LockRegistry::with_clock(clock.clone());
    let lock = reg
        .acquire(key("c1"), "alice".to_owned(), 1_000, false, Some(vec!["s".to_owned()]))
        .unwrap()
        .expect("acquire");

    let owned = reg.list_for(&key("c1"), Some("alice"));
    assert_eq!(owned.len(), 1);
    assert!(owned[0].owned);
    assert_eq!(owned[0].scopes.as_deref(), Some(["s".to_owned()].as_slice()));

    assert!(!reg.list_for(&key("c1"), Some("bob"))[0].owned);
    assert!(!reg.list_for(&key("c1"), None)[0].owned);

    assert_eq!(reg.get_one(&key("c1"), &lock.id, Some("alice")).map(|l| l.owned), Some(true));
    assert!(reg.get_one(&key("c1"), "lck-999", None).is_none());

    clock.advance(1_500);
    assert!(reg.list_for(&key("c1"), Some("alice")).is_empty());
    assert!(reg.get_one(&key("c1"), &lock.id, Some("alice")).is_none());
}

#[test]
fn lock_expiration_is_rfc3339_absolute() {
    let mut reg = LockRegistry::with_clock(TestClock::new(0));
    let lock = reg
        .acquire(key("c1"), "alice".to_owned(), 1_000, false, None)
        .unwrap()
        .expect("acquire");
    assert_eq!(lock.lock_expiration, "1970-01-01T00:00:01.000Z");
}

#[test]
fn lock_ids_count_up_from_one() {
    let mut reg = LockRegistry::with_clock(TestClock::new(0));
    let a = reg
        .acquire(key("c1"), "alice".to_owned(), 1_000, false, None)
        .unwrap()
        .unwrap();
    let b = reg
        .acquire(key("c2"), "alice".to_owned(), 1_000, false, None)
        .unwrap()
        .unwrap();
    assert_eq!(a.id, "lck-1");
    assert_eq!(b.id, "lck-2");
}

#[test]
fn an_expired_lock_cannot_be_extended_or_released() {
    let clock = TestClock::new(0);
    let mut reg = LockRegistry::with_clock(clock.clone());
    let lock = reg
        .acquire(key("c1"), "alice".to_owned(), 1_000, false, None)
        .unwrap()
        .unwrap();
    clock.advance(1_000);
    assert_eq!(
        reg.extend(&key("c1"), &lock.id, "alice", 1_000).unwrap().unwrap_err(),
        LockError::NotFound
    );
    assert_eq!(reg.release(&key("c1"), &lock.id, "alice").unwrap_err(), LockError::NotFound);
}

#[test]
fn an_expiry_past_the_rfc3339_range_is_declined() {
    let mut reg = LockRegistry::with_clock(TestClock::new(RFC3339_LIMIT_MS - 10));
    assert!(reg
        .acquire(key("c1"), "alice".to_owned(), 1_000, false, None)
        .is_none());
    assert!(reg.list_for(&key("c1"), None).is_empty());
}

#[test]
fn the_owner_reacquires_its_own_lock_without_break() {
    let mut reg = LockRegistry::with_clock(TestClock::new(0));
    reg.acquire(key("c1"), "alice".to_owned(), 1_000, false, None)
        .unwrap()
        .unwrap();
    let again = reg.acquire(key("c1"), "alice".to_owned(), 2_000, false, None).unwrap();
    assert!(again.is_ok());
}

#[test]
fn client_id_header_is_validated() {
    assert_eq!(client_id(Some("alice")).unwrap(), "alice");
    assert!(client_id_opt(Some("")).is_none());
    assert!(client_id_opt(None).is_none());
    let long = "x".repeat(257);
    assert!(client_id_opt(Some(&long)).is_none());
    assert_eq!(client_id_opt(Some(&"é".repeat(256))).unwrap().chars().count(), 256);
    match client_id(None) {
        Err(ApiError::BadRequest(g)) => {
            assert_eq!(g.error_code, "invalid-parameter");
            assert_eq!(g.message, "Missing or invalid X-Client-Id header (1-256 chars required)");
            assert!(g.parameters.is_empty());
        }
        _ => panic!("expected a bad request"),
    }
}

#[test]
fn a_long_ttl_never_hides_an_ownership_error() {
    let mut reg = LockRegistry::with_clock(TestClock::new(0));
    let lock = reg
        .acquire(key("c1"), "alice".to_owned(), 60_000, false, None)
        .unwrap()
        .unwrap();
    assert!(matches!(
        reg.acquire(key("c1"), "bob".to_owned(), u64::MAX, false, None),
        Some(Err(LockError::Conflict))
    ));
    assert_eq!(reg.extend(&key("c1"), "lck-999", "alice", u64::MAX), Some(Err(LockError::NotFound)));
    assert_eq!(reg.extend(&key("c1"), &lock.id, "bob", u64::MAX), Some(Err(LockError::Conflict)));
    assert_eq!(reg.extend(&key("c1"), &lock.id, "alice", u64::MAX), None);
    assert_eq!(reg.list_for(&key("c1"), None).len(), 1);
    assert!(reg.acquire(key("c2"), "bob".to_owned(), RFC3339_LIMIT_MS, false, None).is_none());
}
