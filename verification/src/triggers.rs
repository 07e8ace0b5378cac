//! Triggers: registered filters over the fault-event stream. The registry
//! assigns ids `trg-1`, `trg-2`, ... in creation order, so no two live triggers
//! share an id. A trigger matches an event by an optional entity scope and an
//! optional severity floor.

use vstd::prelude::*;
use crate::action::next_count;
use crate::error::ApiError;
use crate::model::{EntityKind, FaultEvent, FaultEventMeta, FaultSummary, GenericError, opt_view, same_fault};
use crate::view::{collection_segment, kind_collection};
use crate::view::reversed;
use crate::text::{decimal, lemma_decimal_injective, lemma_prefix_cancel, owned, push_decimal, str_eq};

verus! {

/// How many change events the broadcast channel buffers for a slow subscriber.
pub const EVENT_BUFFER: usize = 256;

/// How many recent events the replay ring retains for a reconnecting client.
pub const REPLAY_RING: usize = 100;

/// The SSE keep-alive cadence, in seconds.
pub const KEEPALIVE_SECS: u64 = 30;

/// One broadcast item: a sequence id plus the fault event.
#[derive(Clone, Debug)]
pub struct StreamEvent {
    /// Monotonic SSE `id:`.
    pub id: u64,
    /// The event payload.
    pub event: FaultEvent,
}

/// The fault event of kind `event_type` for `fault` on entity `entity_id` of
/// `kind`, numbered with the next sequence id.
pub fn make_event(event_type: &str, kind: EntityKind, entity_id: &str, fault: &FaultSummary, seq: &mut u64) -> (r: StreamEvent)
    ensures
        r.id == *old(seq),
        *final(seq) == next_count(*old(seq)),
        r.event.event_type@ == event_type@,
        same_fault(r.event.fault, *fault),
        r.event.timestamp == fault.last_occurred,
        r.event.x_medkit.entity_id@ == entity_id@,
        r.event.x_medkit.entity_type@ == kind_collection(kind),
{
    let id = *seq;
    *seq = if *seq == u64::MAX { 0 } else { *seq + 1 };
    StreamEvent {
        id,
        event: FaultEvent {
            event_type: owned(event_type),
            fault: fault.duplicate(),
            timestamp: fault.last_occurred,
            x_medkit: FaultEventMeta { entity_id: owned(entity_id), entity_type: owned(collection_segment(kind)) },
        },
    }
}

/// The request body for `POST /api/v1/triggers`: a minimal trigger filter.
#[derive(Clone, Debug, Default)]
pub struct TriggerSpec {
    /// Match only events scoped to this entity id (any entity when absent).
    pub entity_id: Option<String>,
    /// Match only faults at or above this numeric severity (any when absent).
    pub severity: Option<u8>,
}

/// A registered trigger: a [`TriggerSpec`] plus its assigned id.
#[derive(Clone, Debug)]
pub struct Trigger {
    /// The server-assigned trigger id (`trg-{n}`).
    pub id: String,
    /// Entity-scope filter, if any.
    pub entity_id: Option<String>,
    /// Severity-floor filter, if any.
    pub severity: Option<u8>,
}

/// The abstract contents of a [`Trigger`].
pub struct TriggerView {
    /// Trigger id.
    pub id: Seq<char>,
    /// Entity-scope filter.
    pub entity_id: Option<Seq<char>>,
    /// Severity floor.
    pub severity: Option<u8>,
}

impl View for Trigger {
    type V = TriggerView;

    open spec fn view(&self) -> TriggerView {
        TriggerView { id: self.id@, entity_id: opt_view(self.entity_id), severity: self.severity }
    }
}

/// The abstract contents of a sequence of triggers.
pub open spec fn trigger_views(s: Seq<Trigger>) -> Seq<TriggerView> {
    s.map_values(|x: Trigger| x@)
}

/// Whether an event scoped to `entity_id` with a fault of numeric severity
/// `severity` passes the trigger's filter.
pub open spec fn trigger_passes(t: TriggerView, entity_id: Seq<char>, severity: u8) -> bool {
    &&& (t.entity_id matches Some(e) ==> e == entity_id)
    &&& (t.severity matches Some(s) ==> severity >= s)
}

impl Trigger {
    /// A field-for-field copy.
    pub fn duplicate(&self) -> (r: Trigger)
        ensures
            r@ == self@,
    {
        Trigger {
            id: self.id.clone(),
            entity_id: match &self.entity_id {
                Some(e) => Some(e.clone()),
                None => None,
            },
            severity: self.severity,
        }
    }

    /// Whether `event` satisfies this trigger's filter.
    pub fn matches(&self, event: &FaultEvent) -> (r: bool)
        ensures
            r == trigger_passes(self@, event.x_medkit.entity_id@, event.fault.severity),
    {
        let entity_ok = match &self.entity_id {
            Some(e) => str_eq(e.as_str(), event.x_medkit.entity_id.as_str()),
            None => true,
        };
        let severity_ok = match self.severity {
            Some(s) => event.fault.severity >= s,
            None => true,
        };
        entity_ok && severity_ok
    }
}

/// The id of the `n`-th trigger created.
pub open spec fn trigger_idfor(n: nat) -> Seq<char> {
    "trg-"@ + decimal(n)
}

/// The list envelope for `GET /api/v1/triggers`.
#[derive(Debug)]
pub struct TriggerList {
    /// The triggers.
    pub items: Vec<Trigger>,
    /// The collection extension.
    pub x_medkit: TriggerListMeta,
}

/// The `x-medkit` extension of a [`TriggerList`].
#[derive(Debug)]
pub struct TriggerListMeta {
    /// Number of items.
    pub total_count: usize,
}

/// The first trigger with id `id`, if any.
pub open spec fn find_trigger(subs: Seq<TriggerView>, id: Seq<char>) -> Option<TriggerView>
    decreases subs.len(),
{
    if subs.len() == 0 {
        None
    } else if subs[0].id == id {
        Some(subs[0])
    } else {
        find_trigger(subs.skip(1), id)
    }
}

/// The position of the first trigger with id `id` (the length when none has
/// it).
pub open spec fn trigger_index(subs: Seq<TriggerView>, id: Seq<char>) -> int
    decreases subs.len(),
{
    if subs.len() == 0 {
        0
    } else if subs[0].id == id {
        0
    } else {
        1 + trigger_index(subs.skip(1), id)
    }
}

/// The triggers whose id is not `id`, in order.
pub open spec fn without_id(subs: Seq<TriggerView>, id: Seq<char>) -> Seq<TriggerView>
    decreases subs.len(),
{
    if subs.len() == 0 {
        subs
    } else if subs.last().id == id {
        without_id(subs.drop_last(), id)
    } else {
        without_id(subs.drop_last(), id).push(subs.last())
    }
}

/// The triggers pinned to `entity_id`, in order.
pub open spec fn for_entity(subs: Seq<TriggerView>, entity_id: Seq<char>) -> Seq<TriggerView>
    decreases subs.len(),
{
    if subs.len() == 0 {
        subs
    } else if subs.last().entity_id == Some(entity_id) {
        for_entity(subs.drop_last(), entity_id).push(subs.last())
    } else {
        for_entity(subs.drop_last(), entity_id)
    }
}

/// Whether some trigger has id `id`.
pub open spec fn has_trigger(subs: Seq<TriggerView>, id: Seq<char>) -> bool {
    exists|i: int| 0 <= i < subs.len() && #[trigger] subs[i].id == id
}

/// Ids are pairwise distinct.
pub open spec fn distinct_ids(subs: Seq<TriggerView>) -> bool {
    forall|i: int, j: int| 0 <= i < subs.len() && 0 <= j < subs.len() && i != j ==> subs[i].id != subs[j].id
}

/// Ids are pairwise distinct and each is `cyc-{k}` for a `k` in `1..=next`.
pub open spec fn ids_numbered(subs: Seq<TriggerView>, next: u64) -> bool {
    &&& distinct_ids(subs)
    &&& forall|i: int| 0 <= i < subs.len() ==> exists|k: nat| 1 <= k <= next && #[trigger] subs[i].id == trigger_idfor(k)
}

/// Dropping triggers keeps ids distinct.
proof fn lemma_without_id_distinct(subs: Seq<TriggerView>, id: Seq<char>)
    requires
        distinct_ids(subs),
    ensures
        distinct_ids(without_id(subs, id)),
    decreases subs.len(),
{
    if subs.len() > 0 {
        let d = subs.drop_last();
        assert forall|i: int, j: int| 0 <= i < d.len() && 0 <= j < d.len() && i != j implies d[i].id != d[j].id by {
            assert(d[i] == subs[i] && d[j] == subs[j]);
        }
        lemma_without_id_distinct(d, id);
        lemma_without_id(d, id);
        let w = without_id(d, id);
        if subs.last().id != id {
            let l = subs.last();
            assert forall|i: int| 0 <= i < w.len() implies w[i].id != l.id by {
                assert(w.contains(w[i]));
                assert(d.contains(w[i]));
                let m = choose|m: int| 0 <= m < d.len() && d[m] == w[i];
                assert(subs[m] == w[i]);
                assert(subs[subs.len() - 1] == l);
            }
            let w2 = w.push(l);
            assert forall|i: int, j: int| 0 <= i < w2.len() && 0 <= j < w2.len() && i != j implies w2[i].id != w2[j].id by {
                if i < w.len() && j < w.len() {
                    assert(w2[i] == w[i] && w2[j] == w[j]);
                } else if i < w.len() {
                    assert(w2[i] == w[i]);
                } else if j < w.len() {
                    assert(w2[j] == w[j]);
                }
            }
        }
    }
}

/// With distinct ids, the first trigger with an id is the one at its
/// position.
proof fn lemma_find_trigger_at(subs: Seq<TriggerView>, i: int)
    requires
        0 <= i < subs.len(),
        forall|k: int| 0 <= k < i ==> subs[k].id != subs[i].id,
    ensures
        find_trigger(subs, subs[i].id) == Some(subs[i]),
        trigger_index(subs, subs[i].id) == i,
    decreases i,
{
    if i > 0 {
        assert forall|k: int| 0 <= k < i - 1 implies #[trigger] subs.skip(1)[k].id != subs.skip(1)[i - 1].id by {
            assert(subs.skip(1)[k] == subs[k + 1]);
        }
        lemma_find_trigger_at(subs.skip(1), i - 1);
        assert(subs.skip(1)[i - 1] == subs[i]);
    }
}

/// Without a trigger of that id, nothing is found.
proof fn lemma_find_trigger_none(subs: Seq<TriggerView>, id: Seq<char>)
    requires
        !has_trigger(subs, id),
    ensures
        find_trigger(subs, id) is None,
    decreases subs.len(),
{
    if subs.len() > 0 {
        assert(subs[0].id != id);
        assert forall|k: int| 0 <= k < subs.skip(1).len() implies subs.skip(1)[k].id != id by {
            assert(subs.skip(1)[k] == subs[k + 1]);
        }
        lemma_find_trigger_none(subs.skip(1), id);
    }
}

/// Dropping every trigger with an id leaves none with it, and keeps the
/// rest.
proof fn lemma_without_id(subs: Seq<TriggerView>, id: Seq<char>)
    ensures
        !has_trigger(without_id(subs, id), id),
        forall|x: TriggerView| without_id(subs, id).contains(x) ==> subs.contains(x),
    decreases subs.len(),
{
    if subs.len() > 0 {
        lemma_without_id(subs.drop_last(), id);
        let w = without_id(subs.drop_last(), id);
        assert forall|x: TriggerView| without_id(subs, id).contains(x) implies subs.contains(x) by {
            if w.contains(x) {
                let k = choose|k: int| 0 <= k < w.len() && w[k] == x;
                assert(subs.drop_last().contains(x));
                let m = choose|m: int| 0 <= m < subs.drop_last().len() && subs.drop_last()[m] == x;
                assert(subs[m] == x);
            } else {
                assert(x == subs.last());
                assert(subs[subs.len() - 1] == x);
            }
        }
        if subs.last().id != id {
            assert forall|i: int| 0 <= i < w.push(subs.last()).len() implies #[trigger] w.push(subs.last())[i].id != id by {
                if i < w.len() {
                    assert(w.push(subs.last())[i] == w[i]);
                }
            }
        }
    }
}

/// The in-memory trigger registry.
#[derive(Debug)]
pub struct TriggerStore {
    next: u64,
    triggers: Vec<Trigger>,
}

impl TriggerStore {
    /// How many triggers have been created so far (the number of the last id
    /// assigned).
    pub closed spec fn spec_next(&self) -> u64 {
        self.next
    }

    /// The registered triggers, in creation order.
    pub closed spec fn spec_triggers(&self) -> Seq<TriggerView> {
        trigger_views(self.triggers@)
    }

    /// How many have been created so far: a creation is owed only while
    /// this is below `u64::MAX`.
    pub fn created(&self) -> (r: u64)
        ensures
            r == self.spec_next(),
    {
        self.next
    }

    /// The registry invariant: ids distinct and numbered up to the counter.
    pub closed spec fn wf(&self) -> bool {
        ids_numbered(self.spec_triggers(), self.next)
    }

    /// An empty registry.
    pub fn new() -> (r: TriggerStore)
        ensures
            r.wf(),
            r.spec_next() == 0,
            r.spec_triggers() == Seq::<TriggerView>::empty(),
    {
        let r = TriggerStore { next: 0, triggers: Vec::new() };
        proof {
            assert(r.spec_triggers() =~= Seq::<TriggerView>::empty());
        }
        r
    }

    /// Register a trigger, assigning the id `trg-{n}` where `n` counts the
    /// triggers created so far.
    pub fn create(&mut self, spec: TriggerSpec) -> (r: Trigger)
        requires
            old(self).wf(),
            old(self).spec_next() < u64::MAX,
        ensures
            final(self).wf(),
            final(self).spec_next() == old(self).spec_next() + 1,
            r@ == (TriggerView {
                id: trigger_idfor(final(self).spec_next() as nat),
                entity_id: opt_view(spec.entity_id),
                severity: spec.severity,
            }),
            final(self).spec_triggers() == old(self).spec_triggers().push(r@),
    {
        let ghost old_subs = self.spec_triggers();
        self.next = self.next + 1;
        let mut id = owned("trg-");
        push_decimal(&mut id, self.next);
        let trigger = Trigger { id, entity_id: spec.entity_id, severity: spec.severity };
        let out = trigger.duplicate();
        self.triggers.push(trigger);
        proof {
            let subs = self.spec_triggers();
            assert(subs =~= old_subs.push(out@));
            let n = self.next;
            assert forall|i: int| 0 <= i < old_subs.len() implies subs[i].id != out@.id by {
                let k = choose|k: nat| 1 <= k <= n - 1 && #[trigger] old_subs[i].id == trigger_idfor(k);
                if subs[i].id == out@.id {
                    lemma_prefix_cancel("trg-"@, decimal(k), decimal(n as nat));
                    lemma_decimal_injective(k, n as nat);
                }
            }
            assert forall|i: int| 0 <= i < subs.len() implies exists|k: nat| 1 <= k <= n && #[trigger] subs[i].id == trigger_idfor(k) by {
                if i < old_subs.len() {
                    let k = choose|k: nat| 1 <= k <= n - 1 && #[trigger] old_subs[i].id == trigger_idfor(k);
                    assert(subs[i].id == trigger_idfor(k));
                } else {
                    assert(subs[i].id == trigger_idfor(n as nat));
                }
            }
        }
        out
    }

    /// The position of the trigger with id `id`.
    fn position(&self, id: &str) -> (r: Option<usize>)
        requires
            self.wf(),
        ensures
            match r {
                Some(i) => i < self.spec_triggers().len() && self.spec_triggers()[i as int].id == id@
                    && find_trigger(self.spec_triggers(), id@) == Some(self.spec_triggers()[i as int]),
                None => !has_trigger(self.spec_triggers(), id@) && find_trigger(self.spec_triggers(), id@) is None,
            },
    {
        let ghost subs = self.spec_triggers();
        let mut i: usize = 0;
        while i < self.triggers.len()
            invariant
                subs == self.spec_triggers(),
                ids_numbered(subs, self.next),
                i <= subs.len(),
                forall|k: int| 0 <= k < i ==> subs[k].id != id@,
            decreases subs.len() - i,
        {
            if str_eq(self.triggers[i].id.as_str(), id) {
                proof {
                    lemma_find_trigger_at(subs, i as int);
                }
                return Some(i);
            }
            i = i + 1;
        }
        proof {
            lemma_find_trigger_none(subs, id@);
        }
        None
    }

    /// The trigger with id `id`, if any.
    pub fn get(&self, id: &str) -> (r: Option<Trigger>)
        requires
            self.wf(),
        ensures
            match r {
                Some(t) => find_trigger(self.spec_triggers(), id@) == Some(t@),
                None => find_trigger(self.spec_triggers(), id@) is None,
            },
    {
        match self.position(id) {
            Some(i) => Some(self.triggers[i].duplicate()),
            None => None,
        }
    }

    /// Every registered trigger, in creation order.
    pub fn all(&self) -> (r: Vec<Trigger>)
        ensures
            trigger_views(r@) == self.spec_triggers(),
    {
        let mut out: Vec<Trigger> = Vec::new();
        let mut i: usize = 0;
        while i < self.triggers.len()
            invariant
                i <= self.triggers@.len(),
                trigger_views(out@) == self.spec_triggers().take(i as int),
            decreases self.triggers@.len() - i,
        {
            let ghost o0 = out@;
            out.push(self.triggers[i].duplicate());
            proof {
                assert(trigger_views(out@) =~= trigger_views(o0).push(self.spec_triggers()[i as int]));
                assert(self.spec_triggers().take(i + 1) =~= self.spec_triggers().take(i as int).push(self.spec_triggers()[i as int]));
            }
            i = i + 1;
        }
        proof {
            assert(self.spec_triggers().take(self.triggers@.len() as int) =~= self.spec_triggers());
        }
        out
    }

    /// Replace the filter of the trigger `id` (`PUT`), keeping its id; `None`
    /// when absent.
    pub fn update(&mut self, id: &str, spec: TriggerSpec) -> (r: Option<Trigger>)
        requires
            old(self).wf(),
        ensures
            final(self).wf(),
            final(self).spec_next() == old(self).spec_next(),
            match r {
                Some(t) => exists|i: int| 0 <= i < old(self).spec_triggers().len() && #[trigger] old(self).spec_triggers()[i].id == id@
                    && t@ == (TriggerView {
                        entity_id: opt_view(spec.entity_id),
                        severity: spec.severity,
                        ..old(self).spec_triggers()[i]
                    })
                    && final(self).spec_triggers() == old(self).spec_triggers().update(i, t@),
                None => !has_trigger(old(self).spec_triggers(), id@) && final(self).spec_triggers() == old(self).spec_triggers(),
            },
    {
        let ghost before = self.spec_triggers();
        match self.position(id) {
            Some(i) => {
                let mut t = self.triggers[i].duplicate();
                t.entity_id = spec.entity_id;
                t.severity = spec.severity;
                let out = t.duplicate();
                self.triggers.set(i, t);
                proof {
                    assert(self.spec_triggers() =~= before.update(i as int, out@));
                    let subs = self.spec_triggers();
                    assert forall|a: int, b: int| 0 <= a < subs.len() && 0 <= b < subs.len() && a != b implies subs[a].id != subs[b].id by {
                        assert(subs[a].id == before[a].id && subs[b].id == before[b].id);
                    }
                    assert forall|a: int| 0 <= a < subs.len() implies exists|k: nat| 1 <= k <= self.next && #[trigger] subs[a].id == trigger_idfor(k) by {
                        assert(subs[a].id == before[a].id);
                    }
                }
                Some(out)
            },
            None => None,
        }
    }

    /// Drop the trigger `id`; whether one was dropped.
    pub fn remove(&mut self, id: &str) -> (r: bool)
        requires
            old(self).wf(),
        ensures
            final(self).wf(),
            final(self).spec_next() == old(self).spec_next(),
            r == has_trigger(old(self).spec_triggers(), id@),
            final(self).spec_triggers() == without_id(old(self).spec_triggers(), id@),
    {
        let ghost before = self.spec_triggers();
        let mut kept: Vec<Trigger> = Vec::new();
        let mut found = false;
        let mut taken: Vec<Trigger> = Vec::new();
        std::mem::swap(&mut taken, &mut self.triggers);
        proof {
            assert(trigger_views(taken@) == before);
        }
        let mut rest = reversed(taken);
        let n = rest.len();
        let mut i: usize = 0;
        proof {
            assert(before.take(0) =~= Seq::<TriggerView>::empty());
            assert(trigger_views(kept@) =~= Seq::<TriggerView>::empty());
        }
        while i < n
            invariant
                n == before.len(),
                i <= n,
                trigger_views(rest@) == before.subrange(i as int, n as int).reverse(),
                trigger_views(kept@) == without_id(before.take(i as int), id@),
                found == has_trigger(before.take(i as int), id@),
            decreases n - i,
        {
            let ghost rv0 = rest@;
            proof {
                assert(trigger_views(rv0).len() == n - i);
            }
            let s = rest.pop().unwrap();
            proof {
                let r0 = trigger_views(rv0);
                assert(s@ == r0.last());
                assert(r0.last() == before[i as int]);
                assert(rest@ =~= rv0.drop_last());
                assert forall|k: int| 0 <= k < n - i - 1 implies #[trigger] trigger_views(rest@)[k]
                    == before.subrange(i + 1, n as int).reverse()[k] by {
                    assert(r0[k] == before.subrange(i as int, n as int)[n - i - 1 - k]);
                }
                assert(trigger_views(rest@) =~= before.subrange(i + 1, n as int).reverse());
                assert(before.take(i + 1).drop_last() =~= before.take(i as int));
                assert(before.take(i + 1).last() == before[i as int]);
            }
            let ghost k0 = kept@;
            if str_eq(s.id.as_str(), id) {
                found = true;
                proof {
                    assert(before.take(i + 1)[i as int].id == id@);
                }
            } else {
                kept.push(s);
                proof {
                    assert(trigger_views(kept@) =~= trigger_views(k0).push(before[i as int]));
                    if !found {
                        assert forall|k: int| 0 <= k < i + 1 implies #[trigger] before.take(i + 1)[k].id != id@ by {
                            if k < i {
                                assert(before.take(i + 1)[k] == before.take(i as int)[k]);
                            }
                        }
                    } else {
                        let k = choose|k: int| 0 <= k < i && #[trigger] before.take(i as int)[k].id == id@;
                        assert(before.take(i + 1)[k] == before.take(i as int)[k]);
                    }
                }
            }
            proof {
                if found && !has_trigger(before.take(i as int), id@) {
                    assert(before.take(i + 1)[i as int].id == id@);
                }
                if has_trigger(before.take(i as int), id@) {
                    let k = choose|k: int| 0 <= k < i && #[trigger] before.take(i as int)[k].id == id@;
                    assert(before.take(i + 1)[k] == before.take(i as int)[k]);
                }
            }
            i = i + 1;
        }
        proof {
            assert(before.take(n as int) =~= before);
        }
        self.triggers = kept;
        proof {
            lemma_without_id(before, id@);
            let subs = self.spec_triggers();
            assert forall|x: TriggerView| subs.contains(x) implies before.contains(x) by {
            }
            lemma_without_id_distinct(before, id@);
            assert forall|a: int| 0 <= a < subs.len() implies exists|k: nat| 1 <= k <= self.next && #[trigger] subs[a].id == trigger_idfor(k) by {
                assert(subs.contains(subs[a]));
                let m = choose|m: int| 0 <= m < before.len() && before[m] == subs[a];
                assert(before[m].id == subs[a].id);
            }
        }
        found
    }

    /// The triggers scoped to `entity_id`, in creation order.
    pub fn list_for_entity(&self, entity_id: &str) -> (r: Vec<Trigger>)
        ensures
            trigger_views(r@) == for_entity(self.spec_triggers(), entity_id@),
    {
        let ghost subs = self.spec_triggers();
        let mut out: Vec<Trigger> = Vec::new();
        let mut i: usize = 0;
        proof {
            assert(subs.take(0) =~= Seq::<TriggerView>::empty());
            assert(trigger_views(out@) =~= Seq::<TriggerView>::empty());
        }
        while i < self.triggers.len()
            invariant
                subs == self.spec_triggers(),
                i <= subs.len(),
                trigger_views(out@) == for_entity(subs.take(i as int), entity_id@),
            decreases subs.len() - i,
        {
            proof {
                assert(subs.take(i + 1).drop_last() =~= subs.take(i as int));
                assert(subs.take(i + 1).last() == subs[i as int]);
            }
            let pinned = match &self.triggers[i].entity_id {
                Some(e) => str_eq(e.as_str(), entity_id),
                None => false,
            };
            if pinned {
                let ghost o0 = out@;
                out.push(self.triggers[i].duplicate());
                proof {
                    assert(trigger_views(out@) =~= trigger_views(o0).push(subs[i as int]));
                }
            }
            i = i + 1;
        }
        proof {
            assert(subs.take(subs.len() as int) =~= subs);
        }
        out
    }

    /// Whether any registered trigger matches `event`.
    pub fn any_matches(&self, event: &FaultEvent) -> (r: bool)
        ensures
            r == exists|i: int| 0 <= i < self.spec_triggers().len() && #[trigger] trigger_passes(
                self.spec_triggers()[i],
                event.x_medkit.entity_id@,
                event.fault.severity,
            ),
    {
        let ghost subs = self.spec_triggers();
        let mut i: usize = 0;
        while i < self.triggers.len()
            invariant
                subs == self.spec_triggers(),
                i <= subs.len(),
                forall|k: int| 0 <= k < i ==> !#[trigger] trigger_passes(subs[k], event.x_medkit.entity_id@, event.fault.severity),
            decreases subs.len() - i,
        {
            if self.triggers[i].matches(event) {
                assert(subs[i as int] == self.triggers@[i as int]@);
                assert(trigger_passes(subs[i as int], event.x_medkit.entity_id@, event.fault.severity));
                return true;
            }
            i = i + 1;
        }
        false
    }

    /// The trigger `trigger_id`, provided it is scoped to `entity_id`;
    /// otherwise the `trigger-not-found` error (the entity-scoped view never
    /// reveals another entity's triggers).
    pub fn scoped_trigger(&self, entity_id: &str, trigger_id: &str) -> (r: Result<Trigger, ApiError>)
        requires
            self.wf(),
        ensures
            match find_trigger(self.spec_triggers(), trigger_id@) {
                Some(t) if t.entity_id == Some(entity_id@) => r matches Ok(out) && out@ == t,
                _ => r matches Err(ApiError::NotFound(g)) && is_trigger_not_found(g, trigger_id@),
            },
    {
        match self.get(trigger_id) {
            Some(t) => {
                let pinned = match &t.entity_id {
                    Some(e) => str_eq(e.as_str(), entity_id),
                    None => false,
                };
                if pinned {
                    Ok(t)
                } else {
                    Err(ApiError::NotFound(trigger_not_found(trigger_id)))
                }
            },
            None => Err(ApiError::NotFound(trigger_not_found(trigger_id))),
        }
    }

    /// Register a trigger pinned to `entity_id`, whatever entity the request
    /// named.
    pub fn create_for_entity(&mut self, entity_id: &str, spec: TriggerSpec) -> (r: Trigger)
        requires
            old(self).wf(),
            old(self).spec_next() < u64::MAX,
        ensures
            final(self).wf(),
            final(self).spec_next() == old(self).spec_next() + 1,
            r@ == (TriggerView {
                id: trigger_idfor(final(self).spec_next() as nat),
                entity_id: Some(entity_id@),
                severity: spec.severity,
            }),
            final(self).spec_triggers() == old(self).spec_triggers().push(r@),
    {
        let pinned = TriggerSpec { entity_id: Some(owned(entity_id)), severity: spec.severity };
        self.create(pinned)
    }

    /// Replace the filter of a trigger scoped to `entity_id` (`PUT`), keeping
    /// it pinned to that entity.
    pub fn update_scoped(&mut self, entity_id: &str, trigger_id: &str, spec: TriggerSpec) -> (r: Result<Trigger, ApiError>)
        requires
            old(self).wf(),
        ensures
            final(self).wf(),
            final(self).spec_next() == old(self).spec_next(),
            match find_trigger(old(self).spec_triggers(), trigger_id@) {
                Some(t) if t.entity_id == Some(entity_id@) => r matches Ok(out) && out@ == (TriggerView {
                    severity: spec.severity,
                    ..t
                }) && final(self).spec_triggers() == old(self).spec_triggers().update(
                    trigger_index(old(self).spec_triggers(), trigger_id@),
                    out@,
                ),
                _ => r matches Err(ApiError::NotFound(g)) && is_trigger_not_found(g, trigger_id@)
                    && final(self).spec_triggers() == old(self).spec_triggers(),
            },
    {
        let ghost before = self.spec_triggers();
        match self.scoped_trigger(entity_id, trigger_id) {
            Err(e) => Err(e),
            Ok(_) => {
                let pinned = TriggerSpec { entity_id: Some(owned(entity_id)), severity: spec.severity };
                let ghost sev = spec.severity;
                match self.update(trigger_id, pinned) {
                    Some(t) => {
                        proof {
                            let i = choose|i: int| 0 <= i < before.len() && #[trigger] before[i].id == trigger_id@
                                && t@ == (TriggerView { entity_id: Some(entity_id@), severity: sev, ..before[i] })
                                && self.spec_triggers() == before.update(i, t@);
                            lemma_find_trigger_at(before, i);
                        }
                        Ok(t)
                    },
                    None => {
                        proof {
                            lemma_find_trigger_none(before, trigger_id@);
                        }
                        Err(ApiError::NotFound(trigger_not_found(trigger_id)))
                    },
                }
            },
        }
    }

    /// Drop a trigger scoped to `entity_id`.
    pub fn delete_scoped(&mut self, entity_id: &str, trigger_id: &str) -> (r: Result<(), ApiError>)
        requires
            old(self).wf(),
        ensures
            final(self).wf(),
            final(self).spec_next() == old(self).spec_next(),
            match find_trigger(old(self).spec_triggers(), trigger_id@) {
                Some(t) if t.entity_id == Some(entity_id@) => r is Ok && final(self).spec_triggers() == without_id(old(self).spec_triggers(), trigger_id@),
                _ => r matches Err(ApiError::NotFound(g)) && is_trigger_not_found(g, trigger_id@)
                    && final(self).spec_triggers() == old(self).spec_triggers(),
            },
    {
        match self.scoped_trigger(entity_id, trigger_id) {
            Err(e) => Err(e),
            Ok(_) => {
                self.remove(trigger_id);
                Ok(())
            },
        }
    }
}

/// An empty registry.
impl Default for TriggerStore {
    fn default() -> (r: TriggerStore)
        ensures
            r.wf(),
            r.spec_next() == 0,
            r.spec_triggers() == Seq::<TriggerView>::empty(),
    {
        TriggerStore::new()
    }
}

/// Whether `g` is the `trigger-not-found` error for `id`.
pub open spec fn is_trigger_not_found(g: GenericError, id: Seq<char>) -> bool {
    &&& g.error_code@ == "trigger-not-found"@
    &&& g.message@ == "Trigger not found"@
    &&& g.parameters@.len() == 1
    &&& g.parameters@[0].0@ == "trigger_id"@
    &&& g.parameters@[0].1@ == id
}

/// The `trigger-not-found` error for `id`.
pub fn trigger_not_found(id: &str) -> (r: GenericError)
    ensures
        is_trigger_not_found(r, id@),
{
    let mut parameters: Vec<(String, String)> = Vec::new();
    parameters.push((owned("trigger_id"), owned(id)));
    GenericError { error_code: owned("trigger-not-found"), message: owned("Trigger not found"), parameters }
}

/// A created trigger is found again under its id.
pub proof fn law_created_is_found(after: TriggerStore, before: Seq<TriggerView>, created: TriggerView)
    requires
        after.wf(),
        after.spec_triggers() == before.push(created),
    ensures
        find_trigger(after.spec_triggers(), created.id) == Some(created),
{
    let subs = after.spec_triggers();
    let i = subs.len() - 1;
    assert(subs[i] == created);
    lemma_find_trigger_at(subs, i);
}

/// A removed trigger is not found any more.
pub proof fn law_removed_is_gone(subs: Seq<TriggerView>, id: Seq<char>)
    ensures
        find_trigger(without_id(subs, id), id) is None,
{
    lemma_without_id(subs, id);
    lemma_find_trigger_none(without_id(subs, id), id);
}

/// The entity-scoped list holds only triggers scoped to that entity.
pub proof fn law_list_is_scoped(subs: Seq<TriggerView>, entity_id: Seq<char>)
    ensures
        forall|i: int| 0 <= i < for_entity(subs, entity_id).len() ==> #[trigger] for_entity(subs, entity_id)[i].entity_id == Some(entity_id),
    decreases subs.len(),
{
    if subs.len() > 0 {
        law_list_is_scoped(subs.drop_last(), entity_id);
        let f = for_entity(subs.drop_last(), entity_id);
        if subs.last().entity_id == Some(entity_id) {
            assert forall|i: int| 0 <= i < f.push(subs.last()).len() implies #[trigger] f.push(subs.last())[i].entity_id == Some(entity_id) by {
                if i < f.len() {
                    assert(f.push(subs.last())[i] == f[i]);
                }
            }
        }
    }
}

/// Two stream events carry the same id and the same event.
pub open spec fn same_stream_event(a: StreamEvent, b: StreamEvent) -> bool {
    &&& a.id == b.id
    &&& a.event.event_type == b.event.event_type
    &&& same_fault(a.event.fault, b.event.fault)
    &&& a.event.timestamp == b.event.timestamp
    &&& a.event.x_medkit == b.event.x_medkit
}

impl StreamEvent {
    /// A field-for-field copy.
    pub fn duplicate(&self) -> (r: StreamEvent)
        ensures
            same_stream_event(r, *self),
    {
        StreamEvent {
            id: self.id,
            event: FaultEvent {
                event_type: self.event.event_type.clone(),
                fault: self.event.fault.duplicate(),
                timestamp: self.event.timestamp,
                x_medkit: FaultEventMeta {
                    entity_id: self.event.x_medkit.entity_id.clone(),
                    entity_type: self.event.x_medkit.entity_type.clone(),
                },
            },
        }
    }
}

/// The events numbered after `floor`, in order.
pub open spec fn events_after(es: Seq<StreamEvent>, floor: u64) -> Seq<StreamEvent>
    decreases es.len(),
{
    if es.len() == 0 {
        es
    } else if es.last().id > floor {
        events_after(es.drop_last(), floor).push(es.last())
    } else {
        events_after(es.drop_last(), floor)
    }
}

/// The bounded replay ring a reconnecting client resumes from: the most
/// recent [`REPLAY_RING`] events, oldest first.
#[derive(Debug)]
pub struct ReplayRing {
    events: Vec<StreamEvent>,
}

impl ReplayRing {
    /// The ring never holds more than [`REPLAY_RING`] events.
    #[verifier::type_invariant]
    spec fn bounded(&self) -> bool {
        self.events@.len() <= REPLAY_RING
    }

    /// The retained events, oldest first.
    pub closed spec fn spec_events(&self) -> Seq<StreamEvent> {
        self.events@
    }

    /// An empty ring.
    pub fn new() -> (r: ReplayRing)
        ensures
            r.spec_events() == Seq::<StreamEvent>::empty(),
    {
        ReplayRing { events: Vec::new() }
    }

    /// Retain `event`, dropping the oldest event when the ring is full.
    pub fn retain(&mut self, event: StreamEvent)
        ensures
            final(self).spec_events() == if old(self).spec_events().len() == REPLAY_RING {
                old(self).spec_events().skip(1).push(event)
            } else {
                old(self).spec_events().push(event)
            },
    {
        proof {
            use_type_invariant(&*self);
        }
        let mut events: Vec<StreamEvent> = Vec::new();
        std::mem::swap(&mut events, &mut self.events);
        let ghost before = events@;
        if events.len() == REPLAY_RING {
            events.remove(0);
            proof {
                assert(events@ =~= before.skip(1));
            }
        }
        events.push(event);
        self.events = events;
    }

    /// Copies of the retained events numbered after `floor`, oldest first.
    pub fn after(&self, floor: u64) -> (r: Vec<StreamEvent>)
        ensures
            r@.len() == events_after(self.spec_events(), floor).len(),
            forall|i: int| 0 <= i < r@.len() ==> #[trigger] same_stream_event(r@[i], events_after(self.spec_events(), floor)[i]),
    {
        let ghost es = self.events@;
        let mut out: Vec<StreamEvent> = Vec::new();
        let mut i: usize = 0;
        proof {
            assert(es.take(0) =~= Seq::<StreamEvent>::empty());
        }
        while i < self.events.len()
            invariant
                es == self.events@,
                i <= es.len(),
                out@.len() == events_after(es.take(i as int), floor).len(),
                forall|k: int| 0 <= k < out@.len() ==> #[trigger] same_stream_event(out@[k], events_after(es.take(i as int), floor)[k]),
            decreases es.len() - i,
        {
            proof {
                assert(es.take(i + 1).drop_last() =~= es.take(i as int));
                assert(es.take(i + 1).last() == es[i as int]);
            }
            if self.events[i].id > floor {
                out.push(self.events[i].duplicate());
            }
            i = i + 1;
        }
        proof {
            assert(es.take(es.len() as int) =~= es);
        }
        out
    }
}

/// The sequence id a live stream resumes after: the highest id among the
/// replayed events, or `floor` when none was replayed and it is higher.
pub fn resume_floor(replayed: &Vec<StreamEvent>, floor: u64) -> (r: u64)
    ensures
        r >= floor,
        forall|i: int| 0 <= i < replayed@.len() ==> #[trigger] replayed@[i].id <= r,
        r == floor || exists|i: int| 0 <= i < replayed@.len() && #[trigger] replayed@[i].id == r,
{
    let mut best = floor;
    let mut i: usize = 0;
    while i < replayed.len()
        invariant
            i <= replayed@.len(),
            best >= floor,
            forall|k: int| 0 <= k < i ==> #[trigger] replayed@[k].id <= best,
            best == floor || exists|k: int| 0 <= k < i && #[trigger] replayed@[k].id == best,
        decreases replayed@.len() - i,
    {
        if replayed[i].id > best {
            best = replayed[i].id;
        }
        i = i + 1;
    }
    best
}

/// A trigger's two filters hold together, whatever the other one is: an event
/// passes only when it is on the pinned entity (if one is pinned) and its
/// fault is at or above the severity floor (if one is set), and an event
/// meeting both passes.
pub proof fn law_trigger_filters_are_conjoined(t: TriggerView, entity_id: Seq<char>, severity: u8)
    ensures
        trigger_passes(t, entity_id, severity) && t.severity is Some ==> severity >= t.severity->0,
        trigger_passes(t, entity_id, severity) && t.entity_id is Some ==> t.entity_id->0 == entity_id,
        (t.severity is None || severity >= t.severity->0) && (t.entity_id is None || t.entity_id->0 == entity_id)
            ==> trigger_passes(t, entity_id, severity),
{
}

} // verus!
