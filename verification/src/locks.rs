//! Diagnostic-scoped exclusive locks: at most one live lock per `(kind, id)`
//! resource, with a time-to-live enforced against an injectable [`Clock`].
//!
//! The request carries the lifetime as a millisecond TTL; the served [`Lock`]
//! carries the absolute RFC3339 instant it expires. Time is kept as
//! milliseconds since the Unix epoch.

use vstd::prelude::*;
use crate::model::EntityKind;
use crate::civil::iso_text_of;
use crate::text::{append_str, decimal, owned, push_decimal};

verus! {

/// Wall-clock source, injectable so TTL behaviour is deterministic in tests.
pub trait Clock {
    /// The current wall-clock instant, in milliseconds since the Unix epoch.
    fn now_ms(&self) -> u64;
}

/// The production [`Clock`]: the system wall clock.
#[derive(Clone, Copy, Debug, Default)]
pub struct SystemClock;

/// The system wall clock in milliseconds since the Unix epoch
/// (`SystemTime::now`; an instant before the epoch reads as `0`). Nothing is
/// claimed of the value: it depends on the machine and the moment.
#[verifier::external_body]
fn system_now_ms() -> u64 {
    match std::time::SystemTime::now().duration_since(std::time::UNIX_EPOCH) {
        Ok(d) => d.as_millis() as u64,
        Err(_) => 0,
    }
}

impl Clock for SystemClock {
    fn now_ms(&self) -> u64 {
        system_now_ms()
    }
}

/// The first instant (ms since the epoch, year 10000) that RFC3339 rendering
/// no longer covers.
pub const RFC3339_LIMIT_MS: u64 = 253_402_300_800_000;

/// `humantime::format_rfc3339_millis` of the instant `ms` milliseconds after the
/// Unix epoch, rendered to a string: the UTC calendar date and time of day
/// `YYYY-MM-DDTHH:MM:SS.mmmZ`, the year four digits wide. The formatter
/// covers instants before year 10000.
#[verifier::external_body]
fn format_rfc3339(ms: u64) -> (r: String)
    requires
        ms < RFC3339_LIMIT_MS,
    ensures
        iso_text_of(ms as int, r@),
{
    humantime::format_rfc3339_millis(std::time::UNIX_EPOCH + std::time::Duration::from_millis(ms)).to_string()
}

/// The `AcquireLockRequest` body for `POST /{entity}/{id}/locks`.
#[derive(Clone, Debug)]
pub struct AcquireLockRequest {
    /// Lock lifetime in milliseconds from now.
    pub lock_expiration: u64,
    /// Supervisor override: evict a lock held by another client.
    pub break_lock: Option<bool>,
    /// Optional opaque coordination scopes, echoed back on the [`Lock`].
    pub scopes: Option<Vec<String>>,
}

/// The `ExtendLockRequest` body for `PUT /{entity}/{id}/locks/{lock_id}`.
#[derive(Clone, Debug)]
pub struct ExtendLockRequest {
    /// New lock lifetime in milliseconds from now.
    pub lock_expiration: u64,
}

/// The `Lock` response.
#[derive(Clone, Debug)]
pub struct Lock {
    /// The server-assigned lock id.
    pub id: String,
    /// Whether the requesting client owns this lock.
    pub owned: bool,
    /// RFC3339 absolute expiry instant.
    pub lock_expiration: String,
    /// Echoed coordination scopes, if any were supplied.
    pub scopes: Option<Vec<String>>,
}

/// The list envelope for `GET /{entity}/{id}/locks`.
#[derive(Clone, Debug)]
pub struct LockList {
    /// The live locks.
    pub items: Vec<Lock>,
    /// The collection extension.
    pub x_medkit: LockListMeta,
}

/// The `x-medkit` extension of a [`LockList`].
#[derive(Clone, Copy, Debug)]
pub struct LockListMeta {
    /// Number of items.
    pub total_count: usize,
}

/// A lock-lifecycle failure.
#[derive(Clone, Copy, Debug, PartialEq, Eq, Structural)]
pub enum LockError {
    /// The entity is locked live by another client and `break_lock` was not
    /// set, or a non-owner tried to extend/release a live lock.
    Conflict,
    /// No live lock with that id exists on the entity.
    NotFound,
}

/// The abstract state of one held lock.
pub struct LockState {
    /// The lock id.
    pub lock_id: Seq<char>,
    /// The holder's client id.
    pub holder: Seq<char>,
    /// Absolute expiry, ms since the epoch.
    pub expires_at: u64,
    /// Coordination scopes.
    pub scopes: Option<Seq<String>>,
}

/// The contents of optional coordination scopes.
pub open spec fn scopes_view(scopes: Option<Vec<String>>) -> Option<Seq<String>> {
    match scopes {
        Some(v) => Some(v@),
        None => None,
    }
}

/// The resource a lock is scoped to, abstractly.
pub type LockKey = (EntityKind, Seq<char>);

/// The id of the lock minted from counter value `n`: `lck-<n>`.
pub open spec fn lock_id_of(n: u64) -> Seq<char> {
    "lck-"@ + decimal(n as nat)
}

/// `l` is the contract rendering of lock state `st` seen by `requester`.
pub open spec fn renders(l: Lock, st: LockState, requester: Option<Seq<char>>) -> bool {
    &&& l.id@ == st.lock_id
    &&& l.owned == (requester == Some(st.holder))
    &&& iso_text_of(st.expires_at as int, l.lock_expiration@)
    &&& scopes_view(l.scopes) == st.scopes
}

/// The characters of an optional requester id.
pub open spec fn requester_view(requester: Option<&str>) -> Option<Seq<char>> {
    match requester {
        Some(s) => Some(s@),
        None => None,
    }
}

/// Whether `view` holds a lock on `key` that is live at `now`.
pub open spec fn live(view: Map<LockKey, LockState>, key: LockKey, now: u64) -> bool {
    view.dom().contains(key) && view[key].expires_at > now
}

/// Whether an acquire by `holder` at `now` without the override is refused.
pub open spec fn acquire_conflicts(
    view: Map<LockKey, LockState>,
    key: LockKey,
    holder: Seq<char>,
    now: u64,
    break_lock: bool,
) -> bool {
    live(view, key, now) && view[key].holder != holder && !break_lock
}

/// The outcome of an acquire at `now` from registry state (`view`, `next`):
/// the counter always advances; a refused acquire leaves the locks as they
/// were; an acquire that would be granted but whose expiry lies beyond year
/// 9999 (where no RFC3339 instant can be rendered) answers nothing and leaves
/// the locks as they were; otherwise the resource is (re)locked for `holder`
/// until `now + ttl`.
pub open spec fn acquire_post(
    view: Map<LockKey, LockState>,
    next: u64,
    now: u64,
    key: LockKey,
    holder: Seq<char>,
    ttl: u64,
    break_lock: bool,
    scopes: Option<Vec<String>>,
    view2: Map<LockKey, LockState>,
    next2: u64,
    r: Option<Result<Lock, LockError>>,
) -> bool {
    let st = LockState {
        lock_id: lock_id_of(next),
        holder,
        expires_at: (now + ttl) as u64,
        scopes: scopes_view(scopes),
    };
    &&& next2 == next.wrapping_add(1)
    &&& if acquire_conflicts(view, key, holder, now, break_lock) {
        r == Some(Err::<Lock, LockError>(LockError::Conflict)) && view2 == view
    } else if now + ttl >= RFC3339_LIMIT_MS {
        r is None && view2 == view
    } else {
        r matches Some(Ok(l)) && renders(l, st, Some(holder)) && view2 == view.insert(key, st)
    }
}

/// Which error, if any, an extend or release by `holder` of lock `lock_id` at
/// `now` meets.
pub open spec fn ownership_error(
    view: Map<LockKey, LockState>,
    key: LockKey,
    lock_id: Seq<char>,
    holder: Seq<char>,
    now: u64,
) -> Option<LockError> {
    if !(live(view, key, now) && view[key].lock_id == lock_id) {
        Some(LockError::NotFound)
    } else if view[key].holder != holder {
        Some(LockError::Conflict)
    } else {
        None
    }
}

/// The outcome of an extend at `now`: an ownership error leaves the locks as
/// they were; an extend that would be granted but whose expiry lies beyond
/// year 9999 answers nothing and leaves the locks as they were; otherwise the
/// lock's expiry moves to `now + ttl`, everything else about it kept.
pub open spec fn extend_post(
    view: Map<LockKey, LockState>,
    now: u64,
    key: LockKey,
    lock_id: Seq<char>,
    holder: Seq<char>,
    ttl: u64,
    view2: Map<LockKey, LockState>,
    r: Option<Result<(), LockError>>,
) -> bool {
    match ownership_error(view, key, lock_id, holder, now) {
        Some(e) => r == Some(Err::<(), LockError>(e)) && view2 == view,
        None => if now + ttl >= RFC3339_LIMIT_MS {
            r is None && view2 == view
        } else {
            r == Some(Ok::<(), LockError>(())) && view2 == view.insert(
                key,
                LockState { expires_at: (now + ttl) as u64, ..view[key] },
            )
        },
    }
}

struct LockEntry {
    lock_id: String,
    holder: String,
    expires_at: u64,
    scopes: Option<Vec<String>>,
}

struct LockSlot {
    kind: EntityKind,
    id: String,
    entry: LockEntry,
}

spec fn slot_key(s: LockSlot) -> LockKey {
    (s.kind, s.id@)
}

spec fn entry_state(e: LockEntry) -> LockState {
    LockState { lock_id: e.lock_id@, holder: e.holder@, expires_at: e.expires_at, scopes: scopes_view(e.scopes) }
}

spec fn unique_keys(s: Seq<LockSlot>) -> bool {
    forall|i: int, j: int| 0 <= i < s.len() && 0 <= j < s.len() && i != j ==> slot_key(s[i]) != slot_key(s[j])
}

spec fn slots_view(s: Seq<LockSlot>) -> Map<LockKey, LockState> {
    Map::new(
        |k: LockKey| exists|i: int| 0 <= i < s.len() && slot_key(s[i]) == k,
        |k: LockKey| entry_state(s[choose|i: int| 0 <= i < s.len() && slot_key(s[i]) == k].entry),
    )
}

proof fn lemma_view_at(s: Seq<LockSlot>, i: int)
    requires
        unique_keys(s),
        0 <= i < s.len(),
    ensures
        slots_view(s).dom().contains(slot_key(s[i])),
        slots_view(s)[slot_key(s[i])] == entry_state(s[i].entry),
{
    let k = slot_key(s[i]);
    assert(exists|j: int| 0 <= j < s.len() && slot_key(s[j]) == k);
    let j = choose|j: int| 0 <= j < s.len() && slot_key(s[j]) == k;
    assert(i == j);
}

proof fn lemma_view_set(s: Seq<LockSlot>, i: int, slot: LockSlot)
    requires
        unique_keys(s),
        0 <= i < s.len(),
        slot_key(slot) == slot_key(s[i]),
    ensures
        unique_keys(s.update(i, slot)),
        slots_view(s.update(i, slot)) == slots_view(s).insert(slot_key(slot), entry_state(slot.entry)),
{
    let t = s.update(i, slot);
    assert forall|a: int, b: int| 0 <= a < t.len() && 0 <= b < t.len() && a != b implies slot_key(t[a])
        != slot_key(t[b]) by {
        assert(slot_key(t[a]) == slot_key(s[a]));
        assert(slot_key(t[b]) == slot_key(s[b]));
    }
    let v1 = slots_view(t);
    let v2 = slots_view(s).insert(slot_key(slot), entry_state(slot.entry));
    assert forall|k: LockKey| v1.dom().contains(k) <==> v2.dom().contains(k) by {
        if v2.dom().contains(k) && k != slot_key(slot) {
            let j = choose|j: int| 0 <= j < s.len() && slot_key(s[j]) == k;
            assert(slot_key(t[j]) == k);
        }
        if k == slot_key(slot) {
            assert(slot_key(t[i]) == k);
        }
        if v1.dom().contains(k) {
            let j = choose|j: int| 0 <= j < t.len() && slot_key(t[j]) == k;
            assert(slot_key(s[j]) == k);
        }
    }
    assert forall|k: LockKey| v1.dom().contains(k) implies v1[k] == v2[k] by {
        let j = choose|j: int| 0 <= j < t.len() && slot_key(t[j]) == k;
        lemma_view_at(t, j);
        if j == i {
        } else {
            lemma_view_at(s, j);
        }
    }
    assert(v1 =~= v2);
}

proof fn lemma_view_push(s: Seq<LockSlot>, slot: LockSlot)
    requires
        unique_keys(s),
        !slots_view(s).dom().contains(slot_key(slot)),
    ensures
        unique_keys(s.push(slot)),
        slots_view(s.push(slot)) == slots_view(s).insert(slot_key(slot), entry_state(slot.entry)),
{
    let t = s.push(slot);
    assert forall|a: int, b: int| 0 <= a < t.len() && 0 <= b < t.len() && a != b implies slot_key(t[a])
        != slot_key(t[b]) by {
        if a == s.len() as int {
            assert(slot_key(t[b]) == slot_key(s[b]));
        } else if b == s.len() as int {
            assert(slot_key(t[a]) == slot_key(s[a]));
        } else {
            assert(slot_key(t[a]) == slot_key(s[a]));
            assert(slot_key(t[b]) == slot_key(s[b]));
        }
    }
    let v1 = slots_view(t);
    let v2 = slots_view(s).insert(slot_key(slot), entry_state(slot.entry));
    assert forall|k: LockKey| v1.dom().contains(k) <==> v2.dom().contains(k) by {
        if v2.dom().contains(k) && k != slot_key(slot) {
            let j = choose|j: int| 0 <= j < s.len() && slot_key(s[j]) == k;
            assert(slot_key(t[j]) == k);
        }
        if k == slot_key(slot) {
            assert(slot_key(t[s.len() as int]) == k);
        }
        if v1.dom().contains(k) && k != slot_key(slot) {
            let j = choose|j: int| 0 <= j < t.len() && slot_key(t[j]) == k;
            assert(slot_key(s[j]) == k);
        }
    }
    assert forall|k: LockKey| v1.dom().contains(k) implies v1[k] == v2[k] by {
        let j = choose|j: int| 0 <= j < t.len() && slot_key(t[j]) == k;
        lemma_view_at(t, j);
        if j < s.len() {
            lemma_view_at(s, j);
        }
    }
    assert(v1 =~= v2);
}

proof fn lemma_view_remove(s: Seq<LockSlot>, i: int)
    requires
        unique_keys(s),
        0 <= i < s.len(),
    ensures
        unique_keys(s.remove(i)),
        slots_view(s.remove(i)) == slots_view(s).remove(slot_key(s[i])),
{
    let t = s.remove(i);
    assert forall|a: int, b: int| 0 <= a < t.len() && 0 <= b < t.len() && a != b implies slot_key(t[a])
        != slot_key(t[b]) by {
        let a2 = if a < i { a } else { a + 1 };
        let b2 = if b < i { b } else { b + 1 };
        assert(t[a] == s[a2]);
        assert(t[b] == s[b2]);
    }
    let v1 = slots_view(t);
    let v2 = slots_view(s).remove(slot_key(s[i]));
    assert forall|k: LockKey| v1.dom().contains(k) <==> v2.dom().contains(k) by {
        if v2.dom().contains(k) {
            let j = choose|j: int| 0 <= j < s.len() && slot_key(s[j]) == k;
            assert(j != i);
            let j2 = if j < i { j } else { j - 1 };
            assert(t[j2] == s[j]);
        }
        if v1.dom().contains(k) {
            let j = choose|j: int| 0 <= j < t.len() && slot_key(t[j]) == k;
            let j2 = if j < i { j } else { j + 1 };
            assert(t[j] == s[j2]);
            assert(j2 != i);
        }
    }
    assert forall|k: LockKey| v1.dom().contains(k) implies v1[k] == v2[k] by {
        let j = choose|j: int| 0 <= j < t.len() && slot_key(t[j]) == k;
        let j2 = if j < i { j } else { j + 1 };
        assert(t[j] == s[j2]);
        lemma_view_at(t, j);
        lemma_view_at(s, j2);
    }
    assert(v1 =~= v2);
}

/// The in-memory lock registry: at most one lock per `(kind, id)` resource,
/// a lock-id counter, and the clock expiry is judged against.
pub struct LockRegistry<C> {
    locks: Vec<LockSlot>,
    next: u64,
    clock: C,
}

impl LockRegistry<SystemClock> {
    /// The production registry, driven by the system wall clock.
    pub fn system() -> (r: LockRegistry<SystemClock>)
        ensures
            r.wf(),
            r.view() == Map::<LockKey, LockState>::empty(),
            r.next_id() == 1,
    {
        LockRegistry::with_clock(SystemClock)
    }
}

impl<C: Clock> LockRegistry<C> {
    /// The held locks, by resource.
    pub closed spec fn view(&self) -> Map<LockKey, LockState> {
        slots_view(self.locks@)
    }

    /// The counter the next lock id is minted from.
    pub closed spec fn next_id(&self) -> u64 {
        self.next
    }

    /// Well-formedness: one slot per resource, every expiry renderable.
    pub closed spec fn wf(&self) -> bool {
        &&& unique_keys(self.locks@)
        &&& forall|i: int| 0 <= i < self.locks@.len() ==> #[trigger] self.locks@[i].entry.expires_at
            < RFC3339_LIMIT_MS
    }

    /// Every held lock expires at a renderable instant.
    pub proof fn lemma_wf_expiry(&self, key: LockKey)
        requires
            self.wf(),
            self.view().dom().contains(key),
        ensures
            self.view()[key].expires_at < RFC3339_LIMIT_MS,
    {
        let j = choose|j: int| 0 <= j < self.locks@.len() && slot_key(self.locks@[j]) == key;
        lemma_view_at(self.locks@, j);
    }

    /// A registry with no locks, driven by `clock`.
    pub fn with_clock(clock: C) -> (r: Self)
        ensures
            r.wf(),
            r.view() == Map::<LockKey, LockState>::empty(),
            r.next_id() == 1,
    {
        let r = LockRegistry { locks: Vec::new(), next: 1, clock };
        assert(r.view() =~= Map::<LockKey, LockState>::empty());
        r
    }

    fn find(&self, kind: EntityKind, id: &String) -> (r: Option<usize>)
        requires
            self.wf(),
        ensures
            r matches Some(i) ==> i < self.locks@.len() && slot_key(self.locks@[i as int]) == (kind, id@),
            r is None ==> !self.view().dom().contains((kind, id@)),
    {
        let mut i: usize = 0;
        while i < self.locks.len()
            invariant
                i <= self.locks@.len(),
                forall|j: int| 0 <= j < i ==> slot_key(#[trigger] self.locks@[j]) != (kind, id@),
            decreases self.locks@.len() - i,
        {
            let slot = &self.locks[i];
            if slot.kind == kind && slot.id == *id {
                return Some(i);
            }
            i = i + 1;
        }
        None
    }

    fn render(entry: &LockEntry, requester: Option<&str>) -> (l: Lock)
        requires
            entry.expires_at < RFC3339_LIMIT_MS,
        ensures
            renders(l, entry_state(*entry), requester_view(requester)),
    {
        let owned = match requester {
            Some(r) => crate::text::str_eq(r, entry.holder.as_str()),
            None => false,
        };
        let scopes = match &entry.scopes {
            Some(v) => Some(v.clone()),
            None => None,
        };
        proof {
            if entry.scopes is Some {
                assert(scopes->0@ =~= entry.scopes->0@);
            }
        }
        Lock { id: entry.lock_id.clone(), owned, lock_expiration: format_rfc3339(entry.expires_at), scopes }
    }

    /// Acquire an exclusive lock on `key` for `holder` at instant `now`.
    ///
    /// A free, expired, or self-held resource is (re)acquired until
    /// `now + ttl_ms`. A resource held live by another client is refused with
    /// [`LockError::Conflict`] unless `break_lock` is set, which evicts the
    /// incumbent. Every call consumes one lock id. An acquire that would be
    /// granted with an expiry beyond year 9999 answers `None` and changes no
    /// lock.
    pub fn acquire_at(
        &mut self,
        now: u64,
        key: (EntityKind, String),
        holder: String,
        ttl_ms: u64,
        break_lock: bool,
        scopes: Option<Vec<String>>,
    ) -> (r: Option<Result<Lock, LockError>>)
        requires
            old(self).wf(),
        ensures
            final(self).wf(),
            acquire_post(
                old(self).view(),
                old(self).next_id(),
                now,
                (key.0, key.1@),
                holder@,
                ttl_ms,
                break_lock,
                scopes,
                final(self).view(),
                final(self).next_id(),
                r,
            ),
    {
        let n = self.next;
        self.next = self.next.wrapping_add(1);
        let mut lock_id = owned("lck-");
        push_decimal(&mut lock_id, n);
        let (kind, id) = key;
        let found = self.find(kind, &id);
        if let Some(i) = found {
            let existing = &self.locks[i].entry;
            proof {
                lemma_view_at(self.locks@, i as int);
            }
            let is_live = existing.expires_at > now;
            if is_live && !(existing.holder == holder) && !break_lock {
                return Some(Err(LockError::Conflict));
            }
        }
        if ttl_ms >= RFC3339_LIMIT_MS || now >= RFC3339_LIMIT_MS - ttl_ms {
            return None;
        }
        let expires_at = now + ttl_ms;
        let scopes_out = match &scopes {
            Some(v) => Some(v.clone()),
            None => None,
        };
        proof {
            if scopes is Some {
                assert(scopes_out->0@ =~= scopes->0@);
            }
        }
        let lock = Lock { id: lock_id.clone(), owned: true, lock_expiration: format_rfc3339(expires_at), scopes: scopes_out };
        let slot = LockSlot { kind, id, entry: LockEntry { lock_id, holder, expires_at, scopes } };
        let ghost s = self.locks@;
        match found {
            Some(i) => {
                proof {
                    lemma_view_set(s, i as int, slot);
                }
                self.locks.set(i, slot);
            },
            None => {
                proof {
                    lemma_view_push(s, slot);
                }
                self.locks.push(slot);
            },
        }
        proof {
            assert forall|j: int| 0 <= j < self.locks@.len() implies #[trigger] self.locks@[j].entry.expires_at
                < RFC3339_LIMIT_MS by {
                if j < s.len() && !(found matches Some(i) && j == i) {
                    assert(self.locks@[j] == s[j]);
                }
            }
        }
        Some(Ok(lock))
    }

    /// Acquire an exclusive lock on `key` for `holder`, judged at the clock's
    /// current instant (see [`Self::acquire_at`]).
    pub fn acquire(
        &mut self,
        key: (EntityKind, String),
        holder: String,
        ttl_ms: u64,
        break_lock: bool,
        scopes: Option<Vec<String>>,
    ) -> (r: Option<Result<Lock, LockError>>)
        requires
            old(self).wf(),
        ensures
            final(self).wf(),
            exists|now: u64|
                #[trigger] acquire_post(
                    old(self).view(),
                    old(self).next_id(),
                    now,
                    (key.0, key.1@),
                    holder@,
                    ttl_ms,
                    break_lock,
                    scopes,
                    final(self).view(),
                    final(self).next_id(),
                    r,
                ),
    {
        let now = self.clock.now_ms();
        self.acquire_at(now, key, holder, ttl_ms, break_lock, scopes)
    }

    /// The live locks on `key` at `now`, as seen by `requester`: one lock while
    /// the resource is held live, none otherwise.
    pub fn list_for_at(&self, now: u64, key: &(EntityKind, String), requester: Option<&str>) -> (r: Vec<Lock>)
        requires
            self.wf(),
        ensures
            live(self.view(), (key.0, key.1@), now) ==> r@.len() == 1 && renders(
                r@[0],
                self.view()[(key.0, key.1@)],
                requester_view(requester),
            ),
            !live(self.view(), (key.0, key.1@), now) ==> r@.len() == 0,
    {
        let mut out: Vec<Lock> = Vec::new();
        if let Some(i) = self.find(key.0, &key.1) {
            proof {
                lemma_view_at(self.locks@, i as int);
            }
            let entry = &self.locks[i].entry;
            if entry.expires_at > now {
                out.push(Self::render(entry, requester));
            }
        }
        out
    }

    /// The live locks on `key` at the clock's current instant (see
    /// [`Self::list_for_at`]).
    pub fn list_for(&self, key: &(EntityKind, String), requester: Option<&str>) -> (r: Vec<Lock>)
        requires
            self.wf(),
        ensures
            exists|now: u64|
                (#[trigger] live(self.view(), (key.0, key.1@), now) ==> r@.len() == 1 && renders(
                    r@[0],
                    self.view()[(key.0, key.1@)],
                    requester_view(requester),
                )) && (!live(self.view(), (key.0, key.1@), now) ==> r@.len() == 0),
    {
        let now = self.clock.now_ms();
        let r = self.list_for_at(now, key, requester);
        assert(live(self.view(), (key.0, key.1@), now) ==> r@.len() == 1);
        r
    }

    /// The live lock `lock_id` on `key` at `now`, as seen by `requester`.
    pub fn get_one_at(&self, now: u64, key: &(EntityKind, String), lock_id: &str, requester: Option<&str>) -> (r:
        Option<Lock>)
        requires
            self.wf(),
        ensures
            (live(self.view(), (key.0, key.1@), now) && self.view()[(key.0, key.1@)].lock_id == lock_id@)
                ==> (r matches Some(l) && renders(l, self.view()[(key.0, key.1@)], requester_view(requester))),
            !(live(self.view(), (key.0, key.1@), now) && self.view()[(key.0, key.1@)].lock_id == lock_id@)
                ==> r is None,
    {
        if let Some(i) = self.find(key.0, &key.1) {
            proof {
                lemma_view_at(self.locks@, i as int);
            }
            let entry = &self.locks[i].entry;
            if crate::text::str_eq(entry.lock_id.as_str(), lock_id) && entry.expires_at > now {
                return Some(Self::render(entry, requester));
            }
        }
        None
    }

    /// The live lock `lock_id` on `key` at the clock's current instant (see
    /// [`Self::get_one_at`]).
    pub fn get_one(&self, key: &(EntityKind, String), lock_id: &str, requester: Option<&str>) -> (r: Option<Lock>)
        requires
            self.wf(),
        ensures
            exists|now: u64|
                ((#[trigger] live(self.view(), (key.0, key.1@), now) && self.view()[(key.0, key.1@)].lock_id
                    == lock_id@) ==> (r matches Some(l) && renders(l, self.view()[(key.0, key.1@)], requester_view(requester)))) && (!(live(self.view(), (key.0, key.1@), now) && self.view()[(key.0, key.1@)].lock_id
                    == lock_id@) ==> r is None),
    {
        let now = self.clock.now_ms();
        let r = self.get_one_at(now, key, lock_id, requester);
        assert(live(self.view(), (key.0, key.1@), now) ==> true);
        r
    }

    /// Extend the live lock `lock_id` on `key`, owned by `holder`, to expire at
    /// `now + ttl_ms`. A missing, wrongly identified or expired lock is
    /// [`LockError::NotFound`]; a live lock held by another client is
    /// [`LockError::Conflict`]; either way nothing changes. An extend that
    /// would be granted with an expiry beyond year 9999 answers `None` and
    /// changes nothing.
    pub fn extend_at(&mut self, now: u64, key: &(EntityKind, String), lock_id: &str, holder: &str, ttl_ms: u64) -> (r:
        Option<Result<(), LockError>>)
        requires
            old(self).wf(),
        ensures
            final(self).wf(),
            final(self).next_id() == old(self).next_id(),
            extend_post(old(self).view(), now, (key.0, key.1@), lock_id@, holder@, ttl_ms, final(self).view(), r),
    {
        let found = self.find(key.0, &key.1);
        match found {
            Some(i) => {
                proof {
                    lemma_view_at(self.locks@, i as int);
                }
                let entry = &self.locks[i].entry;
                if !(crate::text::str_eq(entry.lock_id.as_str(), lock_id) && entry.expires_at > now) {
                    return Some(Err(LockError::NotFound));
                }
                if !crate::text::str_eq(entry.holder.as_str(), holder) {
                    return Some(Err(LockError::Conflict));
                }
                if ttl_ms >= RFC3339_LIMIT_MS || now >= RFC3339_LIMIT_MS - ttl_ms {
                    return None;
                }
                let ghost s = self.locks@;
                let old_slot = &self.locks[i];
                let slot = LockSlot {
                    kind: old_slot.kind,
                    id: old_slot.id.clone(),
                    entry: LockEntry {
                        lock_id: old_slot.entry.lock_id.clone(),
                        holder: old_slot.entry.holder.clone(),
                        expires_at: now + ttl_ms,
                        scopes: match &old_slot.entry.scopes {
                            Some(v) => Some(v.clone()),
                            None => None,
                        },
                    },
                };
                proof {
                    if s[i as int].entry.scopes is Some {
                        assert(slot.entry.scopes->0@ =~= s[i as int].entry.scopes->0@);
                    }
                    lemma_view_set(s, i as int, slot);
                }
                self.locks.set(i, slot);
                proof {
                    assert forall|j: int| 0 <= j < self.locks@.len() implies #[trigger] self.locks@[j].entry.expires_at
                        < RFC3339_LIMIT_MS by {
                        if j != i {
                            assert(self.locks@[j] == s[j]);
                        }
                    }
                    assert(entry_state(slot.entry) == LockState {
                        expires_at: (now + ttl_ms) as u64,
                        ..old(self).view()[(key.0, key.1@)]
                    });
                }
                Some(Ok(()))
            },
            None => Some(Err(LockError::NotFound)),
        }
    }

    /// Extend a lock at the clock's current instant (see [`Self::extend_at`]).
    pub fn extend(&mut self, key: &(EntityKind, String), lock_id: &str, holder: &str, ttl_ms: u64) -> (r: Option<
        Result<(), LockError>,
    >)
        requires
            old(self).wf(),
        ensures
            final(self).wf(),
            final(self).next_id() == old(self).next_id(),
            exists|now: u64|
                #[trigger] extend_post(
                    old(self).view(),
                    now,
                    (key.0, key.1@),
                    lock_id@,
                    holder@,
                    ttl_ms,
                    final(self).view(),
                    r,
                ),
    {
        let now = self.clock.now_ms();
        self.extend_at(now, key, lock_id, holder, ttl_ms)
    }

    /// Release the live lock `lock_id` on `key`, owned by `holder`, at `now`.
    /// Same ownership and identity rules as [`Self::extend_at`]; a release
    /// frees the resource.
    pub fn release_at(&mut self, now: u64, key: &(EntityKind, String), lock_id: &str, holder: &str) -> (r: Result<
        (),
        LockError,
    >)
        requires
            old(self).wf(),
        ensures
            final(self).wf(),
            final(self).next_id() == old(self).next_id(),
            ({
                let k = (key.0, key.1@);
                match ownership_error(old(self).view(), k, lock_id@, holder@, now) {
                    Some(e) => r == Err::<(), LockError>(e) && final(self).view() == old(self).view(),
                    None => r is Ok && final(self).view() == old(self).view().remove(k),
                }
            }),
    {
        let found = self.find(key.0, &key.1);
        match found {
            Some(i) => {
                proof {
                    lemma_view_at(self.locks@, i as int);
                }
                let entry = &self.locks[i].entry;
                if !(crate::text::str_eq(entry.lock_id.as_str(), lock_id) && entry.expires_at > now) {
                    return Err(LockError::NotFound);
                }
                if !crate::text::str_eq(entry.holder.as_str(), holder) {
                    return Err(LockError::Conflict);
                }
                let ghost s = self.locks@;
                proof {
                    lemma_view_remove(s, i as int);
                }
                self.locks.remove(i);
                proof {
                    assert forall|j: int| 0 <= j < self.locks@.len() implies #[trigger] self.locks@[j].entry.expires_at
                        < RFC3339_LIMIT_MS by {
                        let j2 = if j < i { j } else { j + 1 };
                        assert(self.locks@[j] == s[j2]);
                    }
                }
                Ok(())
            },
            None => Err(LockError::NotFound),
        }
    }

    /// Release a lock at the clock's current instant (see [`Self::release_at`]).
    pub fn release(&mut self, key: &(EntityKind, String), lock_id: &str, holder: &str) -> (r: Result<(), LockError>)
        requires
            old(self).wf(),
        ensures
            final(self).wf(),
            final(self).next_id() == old(self).next_id(),
            exists|now: u64|
                match #[trigger] ownership_error(old(self).view(), (key.0, key.1@), lock_id@, holder@, now) {
                    Some(e) => r == Err::<(), LockError>(e) && final(self).view() == old(self).view(),
                    None => r is Ok && final(self).view() == old(self).view().remove((key.0, key.1@)),
                },
    {
        let now = self.clock.now_ms();
        self.release_at(now, key, lock_id, holder)
    }
}


/// Once `holder` has locked `key` at `now` for `ttl` ms, a plain acquire of the
/// same resource by any other client before the expiry is refused with a
/// conflict and leaves the locks unchanged.
pub proof fn law_live_lock_excludes_others(
    view: Map<LockKey, LockState>,
    next: u64,
    now: u64,
    key: LockKey,
    holder: Seq<char>,
    ttl: u64,
    break_lock: bool,
    scopes: Option<Vec<String>>,
    view2: Map<LockKey, LockState>,
    next2: u64,
    r: Option<Result<Lock, LockError>>,
    other: Seq<char>,
    now2: u64,
    ttl2: u64,
    scopes2: Option<Vec<String>>,
    view3: Map<LockKey, LockState>,
    next3: u64,
    r2: Option<Result<Lock, LockError>>,
)
    requires
        now + ttl <= u64::MAX,
        acquire_post(view, next, now, key, holder, ttl, break_lock, scopes, view2, next2, r),
        r matches Some(Ok(_)),
        other != holder,
        now2 < now + ttl,
        acquire_post(view2, next2, now2, key, other, ttl2, false, scopes2, view3, next3, r2),
    ensures
        r2 == Some(Err::<Lock, LockError>(LockError::Conflict)),
        view3 == view2,
{
}

/// The supervisor override always succeeds: with `break_lock` an acquire
/// installs the caller as the holder, whoever held the resource before.
pub proof fn law_break_lock_evicts(
    view: Map<LockKey, LockState>,
    next: u64,
    now: u64,
    key: LockKey,
    holder: Seq<char>,
    ttl: u64,
    scopes: Option<Vec<String>>,
    view2: Map<LockKey, LockState>,
    next2: u64,
    r: Option<Result<Lock, LockError>>,
)
    requires
        now + ttl < RFC3339_LIMIT_MS,
        acquire_post(view, next, now, key, holder, ttl, true, scopes, view2, next2, r),
    ensures
        r matches Some(Ok(l)) && l.owned,
        view2.dom().contains(key) && view2[key].holder == holder,
{
}

/// A lock auto-releases at its expiry: from then on anyone acquires the
/// resource without the override.
pub proof fn law_expired_lock_is_free(
    view: Map<LockKey, LockState>,
    next: u64,
    now: u64,
    key: LockKey,
    holder: Seq<char>,
    ttl: u64,
    scopes: Option<Vec<String>>,
    view2: Map<LockKey, LockState>,
    next2: u64,
    r: Option<Result<Lock, LockError>>,
)
    requires
        view.dom().contains(key),
        now >= view[key].expires_at,
        now + ttl < RFC3339_LIMIT_MS,
        acquire_post(view, next, now, key, holder, ttl, false, scopes, view2, next2, r),
    ensures
        r matches Some(Ok(_)),
        view2[key].holder == holder,
{
}

/// Only the holder may extend or release a live lock: anyone else meets a
/// conflict, and a lock id that is not live on the resource is not found.
pub proof fn law_ownership_enforced(
    view: Map<LockKey, LockState>,
    key: LockKey,
    lock_id: Seq<char>,
    who: Seq<char>,
    now: u64,
)
    ensures
        live(view, key, now) && view[key].lock_id == lock_id && view[key].holder != who ==> ownership_error(
            view,
            key,
            lock_id,
            who,
            now,
        ) == Some(LockError::Conflict),
        !(live(view, key, now) && view[key].lock_id == lock_id) ==> ownership_error(
            view,
            key,
            lock_id,
            who,
            now,
        ) == Some(LockError::NotFound),
        live(view, key, now) && view[key].lock_id == lock_id && view[key].holder == who ==> ownership_error(
            view,
            key,
            lock_id,
            who,
            now,
        ) is None,
{
}

/// After the holder releases a lock the resource is free: any client's plain
/// acquire succeeds.
pub proof fn law_release_frees(
    view: Map<LockKey, LockState>,
    key: LockKey,
    next: u64,
    now: u64,
    holder: Seq<char>,
    ttl: u64,
    scopes: Option<Vec<String>>,
    view2: Map<LockKey, LockState>,
    next2: u64,
    r: Option<Result<Lock, LockError>>,
)
    requires
        now + ttl < RFC3339_LIMIT_MS,
        acquire_post(view.remove(key), next, now, key, holder, ttl, false, scopes, view2, next2, r),
    ensures
        r matches Some(Ok(_)),
{
}

} // verus!
