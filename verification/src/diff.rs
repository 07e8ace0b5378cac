//! Change events between two successive views of the diagnostic tree:
//! `fault_raised` for a newly present `(entity, fault code)`, `fault_cleared`
//! for one that vanished, and `health_changed` when an entity's worst-wins
//! health level moves.
//!
//! Both views are first indexed per entity and fault code, each index in
//! increasing key order (the order a `BTreeMap` walks in); the events are then
//! read off the two indexes.

use vstd::prelude::*;
use crate::action::next_count;
use crate::assoc::{assoc_lookup, assoc_position, lemma_lookup_absent, lemma_lookup_at};
use crate::model::{EntityKind, EntityView, FaultSummary, Health, Severity, same_fault, same_faults, worst_of};
use crate::provider::{fault_health, severity_to_health};
use crate::sorted::{has_key, insert_sorted, keys_sorted, lemma_same_keys_same_order, lemma_sorted_map_at, sorted_map};
use crate::text::{lemma_seq_less_irrefl, lemma_seq_less_total, lemma_seq_less_trans, seq_less, str_less};
use crate::triggers::{make_event, StreamEvent};
use crate::view::{
    first_with_id, kind_collection, lemma_first_with_id, lemma_status_filtered_all, lookup_view, of_kind, reversed,
    status_filtered, unique_ids, FaultStatusFilter, MergedView,
};

verus! {

/// One entity's faults in the index: its kind and its faults keyed by fault
/// code, in increasing code order.
#[derive(Clone, Debug)]
pub struct FaultIndexEntry {
    /// The entity's kind.
    pub kind: EntityKind,
    /// `(fault code, fault)` entries in increasing code order.
    pub faults: Vec<(String, FaultSummary)>,
}

/// The faults keyed by fault code, a later fault replacing an earlier one with
/// the same code.
pub open spec fn by_code(fs: Seq<FaultSummary>) -> Map<Seq<char>, FaultSummary>
    decreases fs.len(),
{
    if fs.len() == 0 {
        Map::empty()
    } else {
        by_code(fs.drop_last()).insert(fs.last().fault_code@, fs.last())
    }
}

/// Two code maps hold the same codes, with the same faults under them.
pub open spec fn same_code_map(a: Map<Seq<char>, FaultSummary>, b: Map<Seq<char>, FaultSummary>) -> bool {
    &&& forall|k: Seq<char>| #[trigger] a.contains_key(k) <==> b.contains_key(k)
    &&& forall|k: Seq<char>| #[trigger] a.contains_key(k) ==> same_fault(a[k], b[k])
}

/// Whether the view holds entity `id`, with at least one fault, under one of
/// `kinds`.
pub open spec fn indexed(view: MergedView, id: Seq<char>, kinds: Set<EntityKind>) -> bool {
    &&& lookup_view(view.spec_entities(), id) matches Some(e) && kinds.contains(e.kind)
    &&& view.spec_faults_of(id).len() > 0
}

/// The index entry of entity `id` describes it: the entity's kind and its
/// faults by code.
pub open spec fn entry_of(view: MergedView, id: Seq<char>, entry: FaultIndexEntry) -> bool {
    &&& view.spec_has(entry.kind, id)
    &&& same_code_map(sorted_map(entry.faults@), by_code(view.spec_faults_of(id)))
}

/// `idx` indexes the faults of the view's entities of the kinds in `kinds`,
/// by entity id and fault code, both in increasing order.
pub open spec fn indexes_kinds(view: MergedView, idx: Seq<(String, FaultIndexEntry)>, kinds: Set<EntityKind>) -> bool {
    &&& keys_sorted(idx)
    &&& forall|i: int| 0 <= i < idx.len() ==> keys_sorted((#[trigger] idx[i]).1.faults@)
    &&& forall|id: Seq<char>| #[trigger] has_key(idx, id) <==> indexed(view, id, kinds)
    &&& forall|i: int| 0 <= i < idx.len() ==> entry_of(view, (#[trigger] idx[i]).0@, idx[i].1)
}

/// Every entity kind.
pub open spec fn all_kinds() -> Set<EntityKind> {
    set![EntityKind::Area, EntityKind::Component, EntityKind::Function, EntityKind::App]
}

/// `idx` indexes the faults of every entity of the view that carries any.
pub open spec fn indexes(view: MergedView, idx: Seq<(String, FaultIndexEntry)>) -> bool {
    indexes_kinds(view, idx, all_kinds())
}

/// An entity the kind listing yields is in the entity list, with that kind.
proof fn lemma_of_kind_member(es: Seq<EntityView>, kind: EntityKind, k: int)
    requires
        0 <= k < of_kind(es, kind).len(),
    ensures
        exists|i: int| 0 <= i < es.len() && es[i] == of_kind(es, kind)[k],
        of_kind(es, kind)[k].kind == kind,
    decreases es.len(),
{
    let before = of_kind(es.drop_last(), kind);
    if es.last().kind == kind && k == before.len() {
        assert(es[es.len() - 1] == of_kind(es, kind)[k]);
    } else {
        lemma_of_kind_member(es.drop_last(), kind, k);
        let i = choose|i: int| 0 <= i < es.drop_last().len() && es.drop_last()[i] == before[k];
        assert(es[i] == of_kind(es, kind)[k]);
    }
}

/// Every entity of the kind is yielded by the kind listing.
proof fn lemma_of_kind_complete(es: Seq<EntityView>, kind: EntityKind, i: int)
    requires
        0 <= i < es.len(),
        es[i].kind == kind,
    ensures
        exists|k: int| 0 <= k < of_kind(es, kind).len() && of_kind(es, kind)[k] == es[i],
    decreases es.len(),
{
    let before = of_kind(es.drop_last(), kind);
    if i == es.len() - 1 {
        assert(of_kind(es, kind)[before.len() as int] == es[i]);
    } else {
        lemma_of_kind_complete(es.drop_last(), kind, i);
        let k = choose|k: int| 0 <= k < before.len() && before[k] == es.drop_last()[i];
        assert(of_kind(es, kind)[k] == es[i]);
    }
}

/// With distinct ids, looking up an entity's id finds that entity.
proof fn lemma_lookup_own_id(es: Seq<EntityView>, i: int)
    requires
        unique_ids(es),
        0 <= i < es.len(),
    ensures
        lookup_view(es, es[i].id) == Some(es[i]),
{
    lemma_first_with_id(es, es[i].id);
}

/// A found entity is in the list.
proof fn lemma_lookup_found(es: Seq<EntityView>, id: Seq<char>)
    requires
        lookup_view(es, id) is Some,
    ensures
        0 <= first_with_id(es, id) < es.len(),
        es[first_with_id(es, id)] == lookup_view(es, id)->0,
        es[first_with_id(es, id)].id == id,
{
    lemma_first_with_id(es, id);
}

/// Fault lists that agree fault for fault key to agreeing code maps.
proof fn lemma_same_faults_by_code(a: Seq<FaultSummary>, b: Seq<FaultSummary>)
    requires
        same_faults(a, b),
    ensures
        same_code_map(by_code(a), by_code(b)),
    decreases a.len(),
{
    if a.len() > 0 {
        assert(same_faults(a.drop_last(), b.drop_last())) by {
            assert forall|i: int| 0 <= i < a.drop_last().len() implies #[trigger] same_fault(
                a.drop_last()[i],
                b.drop_last()[i],
            ) by {
                assert(same_fault(a[i], b[i]));
            }
        }
        lemma_same_faults_by_code(a.drop_last(), b.drop_last());
        assert(same_fault(a[a.len() - 1], b[b.len() - 1]));
    }
}

/// The faults keyed by code, in increasing code order.
pub fn code_index(faults: Vec<FaultSummary>) -> (r: Vec<(String, FaultSummary)>)
    ensures
        keys_sorted(r@),
        sorted_map(r@) == by_code(faults@),
{
    let ghost orig = faults@;
    let n = faults.len();
    let mut rest = reversed(faults);
    let mut out: Vec<(String, FaultSummary)> = Vec::new();
    let mut i: usize = 0;
    proof {
        assert(sorted_map(out@) =~= by_code(orig.take(0)));
    }
    while i < n
        invariant
            n == orig.len(),
            i <= n,
            rest@ == orig.subrange(i as int, n as int).reverse(),
            keys_sorted(out@),
            sorted_map(out@) == by_code(orig.take(i as int)),
        decreases n - i,
    {
        let ghost r0 = rest@;
        let f = rest.pop().unwrap();
        proof {
            assert(f == orig[i as int]);
            assert(rest@ =~= orig.subrange(i + 1, n as int).reverse());
            assert(orig.take(i + 1).drop_last() =~= orig.take(i as int));
        }
        let code = f.fault_code.clone();
        insert_sorted(&mut out, code, f);
        i = i + 1;
    }
    proof {
        assert(orig.take(n as int) =~= orig);
    }
    out
}

/// Add the entities of one kind that carry faults to the index.
fn index_kind(
    view: &MergedView,
    kind: EntityKind,
    idx: &mut Vec<(String, FaultIndexEntry)>,
    Ghost(kinds): Ghost<Set<EntityKind>>,
)
    requires
        indexes_kinds(*view, old(idx)@, kinds),
        !kinds.contains(kind),
    ensures
        indexes_kinds(*view, final(idx)@, kinds.insert(kind)),
{
    let ghost es = view.spec_entities();
    let listing = view.list(kind);
    let items = listing.items;
    let ghost ks = kinds.insert(kind);
    let ghost listed = of_kind(es, kind);
    let n = items.len();
    let mut p: usize = 0;
    while p < n
        invariant
            es == view.spec_entities(),
            unique_ids(es),
            listed == of_kind(es, kind),
            ks == kinds.insert(kind),
            !kinds.contains(kind),
            n == items@.len(),
            p <= n,
            forall|k: int| 0 <= k < n ==> (#[trigger] items@[k])@ == listed[k],
            listed.len() == n,
            keys_sorted(idx@),
            forall|i: int| 0 <= i < idx@.len() ==> keys_sorted((#[trigger] idx@[i]).1.faults@),
            forall|id: Seq<char>| #[trigger]
                has_key(idx@, id) <==> (indexed(*view, id, kinds) || (exists|k: int|
                    0 <= k < p && #[trigger] items@[k].id@ == id && view.spec_faults_of(id).len() > 0)),
            forall|i: int| 0 <= i < idx@.len() ==> entry_of(*view, (#[trigger] idx@[i]).0@, idx@[i].1),
        decreases n - p,
    {
        let ghost id = items@[p as int].id@;
        proof {
            lemma_of_kind_member(es, kind, p as int);
            let i = choose|i: int| 0 <= i < es.len() && es[i] == listed[p as int];
            lemma_lookup_own_id(es, i);
            assert(view.spec_has(kind, id));
        }
        let ghost before = idx@;
        match view.entity_faults(kind, items[p].id.as_str(), FaultStatusFilter::All) {
            Ok(list) => {
                let faults = list.items;
                proof {
                    lemma_status_filtered_all(view.spec_faults_of(id));
                }
                if faults.len() > 0 {
                    proof {
                        lemma_same_faults_by_code(faults@, view.spec_faults_of(id));
                    }
                    let codes = code_index(faults);
                    let entry = FaultIndexEntry { kind, faults: codes };
                    let ghost ev = entry;
                    insert_sorted(idx, items[p].id.clone(), entry);
                    proof {
                        let after = idx@;
                        assert forall|i: int| 0 <= i < after.len() implies keys_sorted(
                            (#[trigger] after[i]).1.faults@,
                        ) && entry_of(*view, after[i].0@, after[i].1) by {
                            lemma_sorted_map_at(after, i);
                            let k = after[i].0@;
                            if k != id {
                                let j = choose|j: int| 0 <= j < before.len() && #[trigger] before[j].0@ == k;
                                lemma_sorted_map_at(before, j);
                            }
                        }
                        assert forall|x: Seq<char>| #[trigger] has_key(after, x) <==> (indexed(*view, x, kinds) || (
                        exists|k: int| 0 <= k < p + 1 && #[trigger] items@[k].id@ == x && view.spec_faults_of(x).len()
                            > 0)) by {
                            if has_key(after, x) {
                                let j = choose|j: int| 0 <= j < after.len() && #[trigger] after[j].0@ == x;
                                lemma_sorted_map_at(after, j);
                                if x != id {
                                    assert(sorted_map(before).contains_key(x));
                                }
                            }
                            if has_key(before, x) {
                                let j = choose|j: int| 0 <= j < before.len() && #[trigger] before[j].0@ == x;
                                lemma_sorted_map_at(before, j);
                                assert(sorted_map(after).contains_key(x));
                            }
                            if x == id {
                                assert(sorted_map(after).contains_key(x));
                                assert(items@[p as int].id@ == x);
                            }
                        }
                    }
                } else {
                    proof {
                        assert forall|x: Seq<char>| #[trigger] has_key(idx@, x) <==> (indexed(*view, x, kinds) || (
                        exists|k: int| 0 <= k < p + 1 && #[trigger] items@[k].id@ == x && view.spec_faults_of(x).len()
                            > 0)) by {
                            if x == id {
                                assert(view.spec_faults_of(x).len() == 0);
                            }
                        }
                    }
                }
            },
            Err(_) => {},
        }
        p = p + 1;
    }
    proof {
        assert forall|x: Seq<char>| #[trigger] has_key(idx@, x) <==> indexed(*view, x, ks) by {
            if indexed(*view, x, ks) && !indexed(*view, x, kinds) {
                lemma_lookup_found(es, x);
                let i = first_with_id(es, x);
                lemma_of_kind_complete(es, kind, i);
                let k = choose|k: int| 0 <= k < listed.len() && listed[k] == es[i];
                assert(items@[k].id@ == x);
            }
            if exists|k: int| 0 <= k < n && #[trigger] items@[k].id@ == x && view.spec_faults_of(x).len() > 0 {
                let k = choose|k: int| 0 <= k < n && #[trigger] items@[k].id@ == x && view.spec_faults_of(x).len() > 0;
                lemma_of_kind_member(es, kind, k);
                let i = choose|i: int| 0 <= i < es.len() && es[i] == listed[k];
                lemma_lookup_own_id(es, i);
            }
        }
    }
}

/// Index the faults of every entity of the view that carries any, by entity id
/// and fault code, both in increasing order.
pub fn fault_index(view: &MergedView) -> (r: Vec<(String, FaultIndexEntry)>)
    ensures
        indexes(*view, r@),
{
    let mut idx: Vec<(String, FaultIndexEntry)> = Vec::new();
    let ghost none = Set::<EntityKind>::empty();
    let ghost k1 = none.insert(EntityKind::Area);
    let ghost k2 = k1.insert(EntityKind::Component);
    let ghost k3 = k2.insert(EntityKind::Function);
    proof {
        assert forall|x: Seq<char>| #[trigger] has_key(idx@, x) <==> indexed(*view, x, none) by {}
    }
    index_kind(view, EntityKind::Area, &mut idx, Ghost(none));
    index_kind(view, EntityKind::Component, &mut idx, Ghost(k1));
    index_kind(view, EntityKind::Function, &mut idx, Ghost(k2));
    index_kind(view, EntityKind::App, &mut idx, Ghost(k3));
    proof {
        assert(k3.insert(EntityKind::App) =~= all_kinds());
    }
    idx
}

/// One change event, as the events are read off the indexes: its type, the
/// entity's kind and id, and the fault it carries.
pub type ChangeEvent = (Seq<char>, EntityKind, Seq<char>, FaultSummary);

/// Whether the index holds fault `code` for entity `id`.
pub open spec fn has_fault(idx: Seq<(String, FaultIndexEntry)>, id: Seq<char>, code: Seq<char>) -> bool {
    match assoc_lookup(idx, id) {
        Some(entry) => assoc_lookup(entry.faults@, code) is Some,
        None => false,
    }
}

/// The `label` events for one entity's faults that `other` does not hold, in
/// the entity's code order.
pub open spec fn fault_changes(
    other: Seq<(String, FaultIndexEntry)>,
    id: Seq<char>,
    kind: EntityKind,
    faults: Seq<(String, FaultSummary)>,
    label: Seq<char>,
) -> Seq<ChangeEvent>
    decreases faults.len(),
{
    if faults.len() == 0 {
        Seq::empty()
    } else {
        let before = fault_changes(other, id, kind, faults.drop_last(), label);
        if has_fault(other, id, faults.last().0@) {
            before
        } else {
            before.push((label, kind, id, faults.last().1))
        }
    }
}

/// The `label` events for every `(entity, fault)` of `idx` that `other` does
/// not hold, in the index's order.
pub open spec fn index_changes(
    other: Seq<(String, FaultIndexEntry)>,
    idx: Seq<(String, FaultIndexEntry)>,
    label: Seq<char>,
) -> Seq<ChangeEvent>
    decreases idx.len(),
{
    if idx.len() == 0 {
        Seq::empty()
    } else {
        index_changes(other, idx.drop_last(), label) + fault_changes(
            other,
            idx.last().0@,
            idx.last().1.kind,
            idx.last().1.faults@,
            label,
        )
    }
}

/// The worst-wins health the faults imply ([`Health::Okay`] for none).
pub open spec fn faults_health(fs: Seq<(String, FaultSummary)>) -> Health
    decreases fs.len(),
{
    if fs.len() == 0 {
        Health::Okay
    } else {
        worst_of(faults_health(fs.drop_last()), fault_health(fs.last().1))
    }
}

/// The fault of highest severity (the last such in code order), if any.
pub open spec fn worst_fault(fs: Seq<(String, FaultSummary)>) -> Option<FaultSummary>
    decreases fs.len(),
{
    if fs.len() == 0 {
        None
    } else {
        match worst_fault(fs.drop_last()) {
            Some(w) => if w.severity > fs.last().1.severity {
                Some(w)
            } else {
                Some(fs.last().1)
            },
            None => Some(fs.last().1),
        }
    }
}

/// The health an optional index entry implies.
pub open spec fn entry_health(e: Option<FaultIndexEntry>) -> Health {
    match e {
        Some(entry) => faults_health(entry.faults@),
        None => Health::Okay,
    }
}

/// The worst fault of an optional index entry.
pub open spec fn entry_worst(e: Option<FaultIndexEntry>) -> Option<FaultSummary> {
    match e {
        Some(entry) => worst_fault(entry.faults@),
        None => None,
    }
}

/// The `health_changed` event for entity `id` between its previous and its
/// next entry: none when the implied health is unchanged; else one carrying
/// the kind of the next entry (the previous when gone) and the worst fault of
/// the next entry (the previous when there is none).
pub open spec fn health_step(id: Seq<char>, prev: Option<FaultIndexEntry>, next: Option<FaultIndexEntry>) -> Seq<ChangeEvent> {
    if entry_health(prev) == entry_health(next) {
        Seq::empty()
    } else {
        let kind = match next {
            Some(e) => e.kind,
            None => match prev {
                Some(e) => e.kind,
                None => EntityKind::App,
            },
        };
        let worst = if entry_worst(next) is Some {
            entry_worst(next)
        } else {
            entry_worst(prev)
        };
        match worst {
            Some(f) => seq![("health_changed"@, kind, id, f)],
            None => Seq::empty(),
        }
    }
}

/// The `health_changed` events over the entity ids of both indexes, walking
/// the two in step by increasing id.
pub open spec fn health_changes(prev: Seq<(String, FaultIndexEntry)>, next: Seq<(String, FaultIndexEntry)>) -> Seq<
    ChangeEvent,
>
    decreases prev.len() + next.len(),
{
    if prev.len() == 0 && next.len() == 0 {
        Seq::empty()
    } else if next.len() == 0 || (prev.len() > 0 && seq_less(prev[0].0@, next[0].0@)) {
        health_step(prev[0].0@, Some(prev[0].1), None) + health_changes(prev.skip(1), next)
    } else if prev.len() == 0 || seq_less(next[0].0@, prev[0].0@) {
        health_step(next[0].0@, None, Some(next[0].1)) + health_changes(prev, next.skip(1))
    } else {
        health_step(prev[0].0@, Some(prev[0].1), Some(next[0].1)) + health_changes(prev.skip(1), next.skip(1))
    }
}

/// Every change between two indexes: the raised faults, then the cleared
/// ones, then the health transitions.
pub open spec fn changes(prev: Seq<(String, FaultIndexEntry)>, next: Seq<(String, FaultIndexEntry)>) -> Seq<ChangeEvent> {
    index_changes(prev, next, "fault_raised"@) + index_changes(next, prev, "fault_cleared"@) + health_changes(
        prev,
        next,
    )
}

/// The sequence counter after `n` events numbered from `start`.
pub open spec fn seq_after(start: u64, n: nat) -> u64
    decreases n,
{
    if n == 0 {
        start
    } else {
        next_count(seq_after(start, (n - 1) as nat))
    }
}

/// A stream event carries the change: its type, the entity's collection and
/// id, and the fault, stamped with the fault's last occurrence.
pub open spec fn event_is(e: StreamEvent, c: ChangeEvent) -> bool {
    &&& e.event.event_type@ == c.0
    &&& e.event.x_medkit.entity_type@ == kind_collection(c.1)
    &&& e.event.x_medkit.entity_id@ == c.2
    &&& same_fault(e.event.fault, c.3)
    &&& e.event.timestamp == c.3.last_occurred
}

/// The stream events carry the changes in order, numbered consecutively from
/// `start`.
pub open spec fn events_are(evs: Seq<StreamEvent>, cs: Seq<ChangeEvent>, start: u64) -> bool {
    &&& evs.len() == cs.len()
    &&& forall|i: int| 0 <= i < evs.len() ==> event_is(#[trigger] evs[i], cs[i]) && evs[i].id == seq_after(start, i as nat)
}

/// Append the stream event for one change.
fn emit(
    events: &mut Vec<StreamEvent>,
    seq: &mut u64,
    label: &str,
    kind: EntityKind,
    id: &str,
    fault: &FaultSummary,
    Ghost(done): Ghost<Seq<ChangeEvent>>,
    Ghost(start): Ghost<u64>,
)
    requires
        events_are(old(events)@, done, start),
        *old(seq) == seq_after(start, done.len()),
    ensures
        events_are(final(events)@, done.push((label@, kind, id@, *fault)), start),
        *final(seq) == seq_after(start, done.len() + 1),
{
    let ghost n = done.len();
    let e = make_event(label, kind, id, fault, seq);
    events.push(e);
    proof {
        let c = done.push((label@, kind, id@, *fault));
        assert forall|i: int| 0 <= i < events@.len() implies event_is(#[trigger] events@[i], c[i]) && events@[i].id
            == seq_after(start, i as nat) by {
            if i < n {
                assert(events@[i] == old(events)@[i]);
            }
        }
    }
}

/// Whether the index holds fault `code` for entity `id`.
fn holds_fault(idx: &Vec<(String, FaultIndexEntry)>, id: &str, code: &str) -> (r: bool)
    ensures
        r == has_fault(idx@, id@, code@),
{
    match assoc_position(idx, id) {
        Some(i) => match assoc_position(&idx[i].1.faults, code) {
            Some(_) => true,
            None => false,
        },
        None => false,
    }
}

/// Append the `label` events for the faults of `idx` that `other` lacks.
fn push_index_changes(
    other: &Vec<(String, FaultIndexEntry)>,
    idx: &Vec<(String, FaultIndexEntry)>,
    label: &str,
    events: &mut Vec<StreamEvent>,
    seq: &mut u64,
    Ghost(done): Ghost<Seq<ChangeEvent>>,
    Ghost(start): Ghost<u64>,
)
    requires
        events_are(old(events)@, done, start),
        *old(seq) == seq_after(start, done.len()),
    ensures
        events_are(final(events)@, done + index_changes(other@, idx@, label@), start),
        *final(seq) == seq_after(start, final(events)@.len()),
{
    let n = idx.len();
    let mut i: usize = 0;
    proof {
        assert(done + index_changes(other@, idx@.take(0), label@) =~= done);
    }
    while i < n
        invariant
            n == idx@.len(),
            i <= n,
            events_are(events@, done + index_changes(other@, idx@.take(i as int), label@), start),
            *seq == seq_after(start, events@.len()),
        decreases n - i,
    {
        let ghost base = done + index_changes(other@, idx@.take(i as int), label@);
        let id = idx[i].0.as_str();
        let kind = idx[i].1.kind;
        let faults = &idx[i].1.faults;
        let m = faults.len();
        let mut j: usize = 0;
        proof {
            assert(base + fault_changes(other@, id@, kind, faults@.take(0), label@) =~= base);
        }
        while j < m
            invariant
                m == faults@.len(),
                j <= m,
                events_are(events@, base + fault_changes(other@, id@, kind, faults@.take(j as int), label@), start),
                *seq == seq_after(start, events@.len()),
            decreases m - j,
        {
            let ghost cur = base + fault_changes(other@, id@, kind, faults@.take(j as int), label@);
            proof {
                assert(faults@.take(j + 1).drop_last() =~= faults@.take(j as int));
                assert(faults@.take(j + 1).last() == faults@[j as int]);
            }
            if !holds_fault(other, id, faults[j].0.as_str()) {
                emit(events, seq, label, kind, id, &faults[j].1, Ghost(cur), Ghost(start));
                proof {
                    assert(cur.push((label@, kind, id@, faults@[j as int].1)) =~= base + fault_changes(
                        other@,
                        id@,
                        kind,
                        faults@.take(j + 1),
                        label@,
                    ));
                }
            }
            j = j + 1;
        }
        proof {
            assert(faults@.take(m as int) =~= faults@);
            assert(idx@.take(i + 1).drop_last() =~= idx@.take(i as int));
            assert(idx@.take(i + 1).last() == idx@[i as int]);
            assert(base + fault_changes(other@, id@, kind, faults@, label@) =~= done + index_changes(
                other@,
                idx@.take(i + 1),
                label@,
            ));
        }
        i = i + 1;
    }
    proof {
        assert(idx@.take(n as int) =~= idx@);
    }
}

/// The health the faults imply.
fn health_of(faults: &Vec<(String, FaultSummary)>) -> (r: Health)
    ensures
        r == faults_health(faults@),
{
    let mut h = Health::Okay;
    let mut i: usize = 0;
    while i < faults.len()
        invariant
            i <= faults@.len(),
            h == faults_health(faults@.take(i as int)),
        decreases faults@.len() - i,
    {
        proof {
            assert(faults@.take(i + 1).drop_last() =~= faults@.take(i as int));
        }
        let implied = match Severity::from_wire_value(faults[i].1.severity) {
            Some(s) => severity_to_health(s),
            None => Health::Okay,
        };
        h = h.worst(implied);
        i = i + 1;
    }
    proof {
        assert(faults@.take(faults@.len() as int) =~= faults@);
    }
    h
}

/// The position of the worst fault (the last of highest severity), if any.
fn worst_position(faults: &Vec<(String, FaultSummary)>) -> (r: Option<usize>)
    ensures
        match r {
            Some(k) => k < faults@.len() && worst_fault(faults@) == Some(faults@[k as int].1),
            None => worst_fault(faults@) is None,
        },
{
    let mut best: Option<usize> = None;
    let mut i: usize = 0;
    while i < faults.len()
        invariant
            i <= faults@.len(),
            match best {
                Some(k) => k < i && worst_fault(faults@.take(i as int)) == Some(faults@[k as int].1),
                None => worst_fault(faults@.take(i as int)) is None,
            },
        decreases faults@.len() - i,
    {
        proof {
            assert(faults@.take(i + 1).drop_last() =~= faults@.take(i as int));
        }
        best = match best {
            Some(k) => if faults[k].1.severity > faults[i].1.severity {
                Some(k)
            } else {
                Some(i)
            },
            None => Some(i),
        };
        i = i + 1;
    }
    proof {
        assert(faults@.take(faults@.len() as int) =~= faults@);
    }
    best
}

/// Append the `health_changed` event for entity `id`, if its health moved.
fn push_health_step(
    id: &str,
    prev: Option<&FaultIndexEntry>,
    next: Option<&FaultIndexEntry>,
    events: &mut Vec<StreamEvent>,
    seq: &mut u64,
    Ghost(done): Ghost<Seq<ChangeEvent>>,
    Ghost(start): Ghost<u64>,
)
    requires
        prev is Some || next is Some,
        events_are(old(events)@, done, start),
        *old(seq) == seq_after(start, done.len()),
    ensures
        events_are(
            final(events)@,
            done + health_step(
                id@,
                match prev {
                    Some(e) => Some(*e),
                    None => None,
                },
                match next {
                    Some(e) => Some(*e),
                    None => None,
                },
            ),
            start,
        ),
        *final(seq) == seq_after(start, final(events)@.len()),
{
    let ghost p = match prev {
        Some(e) => Some(*e),
        None => None::<FaultIndexEntry>,
    };
    let ghost q = match next {
        Some(e) => Some(*e),
        None => None::<FaultIndexEntry>,
    };
    let hp = match prev {
        Some(e) => health_of(&e.faults),
        None => Health::Okay,
    };
    let hn = match next {
        Some(e) => health_of(&e.faults),
        None => Health::Okay,
    };
    if hp == hn {
        proof {
            assert(done + health_step(id@, p, q) =~= done);
        }
        return;
    }
    let kind = match next {
        Some(e) => e.kind,
        None => match prev {
            Some(e) => e.kind,
            None => EntityKind::App,
        },
    };
    let from_next = match next {
        Some(e) => match worst_position(&e.faults) {
            Some(k) => Some(&e.faults[k].1),
            None => None,
        },
        None => None,
    };
    let worst = match from_next {
        Some(f) => Some(f),
        None => match prev {
            Some(e) => match worst_position(&e.faults) {
                Some(k) => Some(&e.faults[k].1),
                None => None,
            },
            None => None,
        },
    };
    match worst {
        Some(f) => {
            emit(events, seq, "health_changed", kind, id, f, Ghost(done), Ghost(start));
            proof {
                assert(done.push(("health_changed"@, kind, id@, *f)) =~= done + health_step(id@, p, q));
            }
        },
        None => {
            proof {
                assert(done + health_step(id@, p, q) =~= done);
            }
        },
    }
}

/// Append the `health_changed` events over the entity ids of both indexes.
fn push_health_changes(
    prev: &Vec<(String, FaultIndexEntry)>,
    next: &Vec<(String, FaultIndexEntry)>,
    events: &mut Vec<StreamEvent>,
    seq: &mut u64,
    Ghost(done): Ghost<Seq<ChangeEvent>>,
    Ghost(start): Ghost<u64>,
)
    requires
        events_are(old(events)@, done, start),
        *old(seq) == seq_after(start, done.len()),
    ensures
        events_are(final(events)@, done + health_changes(prev@, next@), start),
        *final(seq) == seq_after(start, final(events)@.len()),
{
    let n1 = prev.len();
    let n2 = next.len();
    let mut i: usize = 0;
    let mut j: usize = 0;
    let ghost mut acc: Seq<ChangeEvent> = done;
    proof {
        assert(prev@.skip(0) =~= prev@);
        assert(next@.skip(0) =~= next@);
    }
    while i < n1 || j < n2
        invariant
            n1 == prev@.len(),
            n2 == next@.len(),
            i <= n1,
            j <= n2,
            events_are(events@, acc, start),
            *seq == seq_after(start, events@.len()),
            acc + health_changes(prev@.skip(i as int), next@.skip(j as int)) == done + health_changes(prev@, next@),
        decreases (n1 - i) + (n2 - j),
    {
        let ghost ps = prev@.skip(i as int);
        let ghost ns = next@.skip(j as int);
        proof {
            if i < n1 {
                assert(ps.skip(1) =~= prev@.skip(i + 1));
            }
            if j < n2 {
                assert(ns.skip(1) =~= next@.skip(j + 1));
            }
        }
        let take_prev = j >= n2 || (i < n1 && str_less(prev[i].0.as_str(), next[j].0.as_str()));
        if take_prev {
            proof {
                assert(ps[0] == prev@[i as int]);
            }
            push_health_step(prev[i].0.as_str(), Some(&prev[i].1), None, events, seq, Ghost(acc), Ghost(start));
            proof {
                acc = acc + health_step(ps[0].0@, Some(ps[0].1), None);
            }
            i = i + 1;
        } else {
            let take_next = i >= n1 || str_less(next[j].0.as_str(), prev[i].0.as_str());
            if take_next {
                proof {
                    assert(ns[0] == next@[j as int]);
                }
                push_health_step(next[j].0.as_str(), None, Some(&next[j].1), events, seq, Ghost(acc), Ghost(start));
                proof {
                    acc = acc + health_step(ns[0].0@, None, Some(ns[0].1));
                }
                j = j + 1;
            } else {
                proof {
                    assert(ps[0] == prev@[i as int]);
                    assert(ns[0] == next@[j as int]);
                }
                push_health_step(
                    prev[i].0.as_str(),
                    Some(&prev[i].1),
                    Some(&next[j].1),
                    events,
                    seq,
                    Ghost(acc),
                    Ghost(start),
                );
                proof {
                    acc = acc + health_step(ps[0].0@, Some(ps[0].1), Some(ns[0].1));
                }
                i = i + 1;
                j = j + 1;
            }
        }
        proof {
            assert(acc + health_changes(prev@.skip(i as int), next@.skip(j as int)) =~= done + health_changes(
                prev@,
                next@,
            ));
        }
    }
    proof {
        assert(prev@.skip(i as int).len() == 0 && next@.skip(j as int).len() == 0);
        assert(acc =~= done + health_changes(prev@, next@));
    }
}

/// The change events between two indexes, numbered from `*seq` on: raised
/// faults, cleared faults, then health transitions.
pub fn diff_indexes(
    prev: &Vec<(String, FaultIndexEntry)>,
    next: &Vec<(String, FaultIndexEntry)>,
    seq: &mut u64,
) -> (r: Vec<StreamEvent>)
    ensures
        events_are(r@, changes(prev@, next@), *old(seq)),
        *final(seq) == seq_after(*old(seq), r@.len()),
{
    let ghost start = *seq;
    let mut events: Vec<StreamEvent> = Vec::new();
    let ghost empty = Seq::<ChangeEvent>::empty();
    push_index_changes(prev, next, "fault_raised", &mut events, seq, Ghost(empty), Ghost(start));
    let ghost raised = empty + index_changes(prev@, next@, "fault_raised"@);
    push_index_changes(next, prev, "fault_cleared", &mut events, seq, Ghost(raised), Ghost(start));
    let ghost cleared = raised + index_changes(next@, prev@, "fault_cleared"@);
    push_health_changes(prev, next, &mut events, seq, Ghost(cleared), Ghost(start));
    proof {
        assert(cleared + health_changes(prev@, next@) =~= changes(prev@, next@));
    }
    events
}

/// The change events between two successive views, numbered from `*seq` on:
/// the events between the views' fault indexes.
pub fn diff_events(prev: &MergedView, next: &MergedView, seq: &mut u64) -> (r: Vec<StreamEvent>)
    ensures
        exists|pi: Seq<(String, FaultIndexEntry)>, ni: Seq<(String, FaultIndexEntry)>|
            indexes(*prev, pi) && indexes(*next, ni) && events_are(r@, #[trigger] changes(pi, ni), *old(seq)),
        *final(seq) == seq_after(*old(seq), r@.len()),
{
    let prev_index = fault_index(prev);
    let next_index = fault_index(next);
    let r = diff_indexes(&prev_index, &next_index, seq);
    proof {
        assert(indexes(*prev, prev_index@) && indexes(*next, next_index@) && events_are(
            r@,
            changes(prev_index@, next_index@),
            *old(seq),
        ));
    }
    r
}

/// Two index entries describe the same faults: the same kind, the same codes
/// in the same order, and agreeing faults under them.
pub open spec fn same_entry(a: FaultIndexEntry, b: FaultIndexEntry) -> bool {
    &&& a.kind == b.kind
    &&& a.faults@.len() == b.faults@.len()
    &&& forall|j: int|
        0 <= j < a.faults@.len() ==> (#[trigger] a.faults@[j]).0@ == b.faults@[j].0@ && same_fault(
            a.faults@[j].1,
            b.faults@[j].1,
        )
}

/// Two indexes of the same view agree entry for entry.
proof fn lemma_indexes_agree(view: MergedView, pi: Seq<(String, FaultIndexEntry)>, ni: Seq<(String, FaultIndexEntry)>)
    requires
        indexes(view, pi),
        indexes(view, ni),
    ensures
        pi.len() == ni.len(),
        forall|i: int| 0 <= i < pi.len() ==> (#[trigger] pi[i]).0@ == ni[i].0@ && same_entry(pi[i].1, ni[i].1),
{
    lemma_same_keys_same_order(pi, ni);
    assert forall|i: int| 0 <= i < pi.len() implies (#[trigger] pi[i]).0@ == ni[i].0@ && same_entry(
        pi[i].1,
        ni[i].1,
    ) by {
        let id = pi[i].0@;
        let a = pi[i].1;
        let b = ni[i].1;
        assert(entry_of(view, id, a));
        assert(entry_of(view, ni[i].0@, b));
        let fa = a.faults@;
        let fb = b.faults@;
        let m = by_code(view.spec_faults_of(id));
        assert forall|k: Seq<char>| #![trigger has_key(fa, k)] #![trigger has_key(fb, k)] has_key(fa, k) <==> has_key(
            fb,
            k,
        ) by {
            assert(sorted_map(fa).contains_key(k) <==> m.contains_key(k));
            assert(sorted_map(fb).contains_key(k) <==> m.contains_key(k));
        }
        lemma_same_keys_same_order(fa, fb);
        assert forall|j: int| 0 <= j < fa.len() implies (#[trigger] fa[j]).0@ == fb[j].0@ && same_fault(
            fa[j].1,
            fb[j].1,
        ) by {
            lemma_sorted_map_at(fa, j);
            lemma_sorted_map_at(fb, j);
            assert(same_fault(sorted_map(fa)[fa[j].0@], m[fa[j].0@]));
            assert(same_fault(sorted_map(fb)[fb[j].0@], m[fb[j].0@]));
        }
    }
}

/// No fault change is read off entries whose faults the other index all holds.
proof fn lemma_no_fault_changes(
    other: Seq<(String, FaultIndexEntry)>,
    id: Seq<char>,
    kind: EntityKind,
    faults: Seq<(String, FaultSummary)>,
    label: Seq<char>,
)
    requires
        forall|j: int| 0 <= j < faults.len() ==> has_fault(other, id, (#[trigger] faults[j]).0@),
    ensures
        fault_changes(other, id, kind, faults, label) == Seq::<ChangeEvent>::empty(),
    decreases faults.len(),
{
    if faults.len() > 0 {
        assert(has_fault(other, id, faults[faults.len() - 1].0@));
        lemma_no_fault_changes(other, id, kind, faults.drop_last(), label);
    }
}

/// No change is read off an index whose faults the other index all holds.
proof fn lemma_no_index_changes(other: Seq<(String, FaultIndexEntry)>, idx: Seq<(String, FaultIndexEntry)>, label: Seq<char>)
    requires
        forall|i: int, j: int|
            0 <= i < idx.len() && 0 <= j < idx[i].1.faults@.len() ==> has_fault(
                other,
                idx[i].0@,
                (#[trigger] idx[i].1.faults@[j]).0@,
            ),
    ensures
        index_changes(other, idx, label) == Seq::<ChangeEvent>::empty(),
    decreases idx.len(),
{
    if idx.len() > 0 {
        let last = idx[idx.len() - 1];
        assert forall|j: int| 0 <= j < last.1.faults@.len() implies has_fault(
            other,
            last.0@,
            (#[trigger] last.1.faults@[j]).0@,
        ) by {
            assert(has_fault(other, idx[idx.len() - 1].0@, idx[idx.len() - 1].1.faults@[j].0@));
        }
        lemma_no_fault_changes(other, last.0@, last.1.kind, last.1.faults@, label);
        assert forall|i: int, j: int|
            0 <= i < idx.drop_last().len() && 0 <= j < idx.drop_last()[i].1.faults@.len() implies has_fault(
            other,
            idx.drop_last()[i].0@,
            (#[trigger] idx.drop_last()[i].1.faults@[j]).0@,
        ) by {
            assert(idx.drop_last()[i] == idx[i]);
        }
        lemma_no_index_changes(other, idx.drop_last(), label);
    }
}

/// An index holds every fault of an entry that agrees with its own entry at
/// the same position.
proof fn lemma_holds_agreeing(
    other: Seq<(String, FaultIndexEntry)>,
    idx: Seq<(String, FaultIndexEntry)>,
)
    requires
        keys_sorted(other),
        forall|i: int| 0 <= i < other.len() ==> keys_sorted((#[trigger] other[i]).1.faults@),
        other.len() == idx.len(),
        forall|i: int| 0 <= i < other.len() ==> (#[trigger] other[i]).0@ == idx[i].0@ && same_entry(other[i].1, idx[i].1),
    ensures
        forall|i: int, j: int|
            0 <= i < idx.len() && 0 <= j < idx[i].1.faults@.len() ==> has_fault(
                other,
                idx[i].0@,
                (#[trigger] idx[i].1.faults@[j]).0@,
            ),
{
    assert forall|i: int, j: int| 0 <= i < idx.len() && 0 <= j < idx[i].1.faults@.len() implies has_fault(
        other,
        idx[i].0@,
        (#[trigger] idx[i].1.faults@[j]).0@,
    ) by {
        let id = idx[i].0@;
        assert(other[i].0@ == id && same_entry(other[i].1, idx[i].1));
        assert forall|c: int| 0 <= c < i implies other[c].0@ != id by {
            assert(seq_less(other[c].0@, other[i].0@));
            lemma_seq_less_irrefl(id);
        }
        lemma_lookup_at(other, i, id);
        let fs = other[i].1.faults@;
        let code = idx[i].1.faults@[j].0@;
        assert(fs[j].0@ == code);
        assert forall|c: int| 0 <= c < j implies fs[c].0@ != code by {
            assert(keys_sorted(fs));
            assert(seq_less(fs[c].0@, fs[j].0@));
            lemma_seq_less_irrefl(code);
        }
        lemma_lookup_at(fs, j, code);
    }
}

/// Agreeing fault lists imply the same health.
proof fn lemma_agreeing_health(a: Seq<(String, FaultSummary)>, b: Seq<(String, FaultSummary)>)
    requires
        a.len() == b.len(),
        forall|j: int| 0 <= j < a.len() ==> same_fault((#[trigger] a[j]).1, b[j].1),
    ensures
        faults_health(a) == faults_health(b),
    decreases a.len(),
{
    if a.len() > 0 {
        assert(same_fault(a[a.len() - 1].1, b[b.len() - 1].1));
        assert forall|j: int| 0 <= j < a.drop_last().len() implies same_fault((#[trigger] a.drop_last()[j]).1, b.drop_last()[j].1) by {
            assert(same_fault(a[j].1, b[j].1));
        }
        lemma_agreeing_health(a.drop_last(), b.drop_last());
    }
}

/// Agreeing indexes show no health transition.
proof fn lemma_no_health_changes(pi: Seq<(String, FaultIndexEntry)>, ni: Seq<(String, FaultIndexEntry)>)
    requires
        pi.len() == ni.len(),
        forall|i: int| 0 <= i < pi.len() ==> (#[trigger] pi[i]).0@ == ni[i].0@ && same_entry(pi[i].1, ni[i].1),
    ensures
        health_changes(pi, ni) == Seq::<ChangeEvent>::empty(),
    decreases pi.len(),
{
    if pi.len() > 0 {
        assert(pi[0].0@ == ni[0].0@ && same_entry(pi[0].1, ni[0].1));
        lemma_seq_less_irrefl(pi[0].0@);
        let fa = pi[0].1.faults@;
        let fb = ni[0].1.faults@;
        assert forall|j: int| 0 <= j < fa.len() implies same_fault((#[trigger] fa[j]).1, fb[j].1) by {
            assert(fa[j].0@ == fb[j].0@);
        }
        lemma_agreeing_health(fa, fb);
        assert(health_step(pi[0].0@, Some(pi[0].1), Some(ni[0].1)) =~= Seq::<ChangeEvent>::empty());
        assert forall|i: int| 0 <= i < pi.skip(1).len() implies (#[trigger] pi.skip(1)[i]).0@ == ni.skip(1)[i].0@
            && same_entry(pi.skip(1)[i].1, ni.skip(1)[i].1) by {
            assert(pi.skip(1)[i] == pi[i + 1]);
            assert(ni.skip(1)[i] == ni[i + 1]);
        }
        lemma_no_health_changes(pi.skip(1), ni.skip(1));
    }
}

/// An unchanged view diffs to no events: between any two indexes of the same
/// view there is no change.
pub proof fn law_unchanged_view_has_no_changes(
    view: MergedView,
    pi: Seq<(String, FaultIndexEntry)>,
    ni: Seq<(String, FaultIndexEntry)>,
)
    requires
        indexes(view, pi),
        indexes(view, ni),
    ensures
        changes(pi, ni) == Seq::<ChangeEvent>::empty(),
{
    lemma_indexes_agree(view, pi, ni);
    lemma_indexes_agree(view, ni, pi);
    lemma_holds_agreeing(pi, ni);
    lemma_holds_agreeing(ni, pi);
    lemma_no_index_changes(pi, ni, "fault_raised"@);
    lemma_no_index_changes(ni, pi, "fault_cleared"@);
    lemma_no_health_changes(pi, ni);
    assert(changes(pi, ni) =~= Seq::<ChangeEvent>::empty());
}

/// The same change under another label.
pub open spec fn relabel(c: ChangeEvent, label: Seq<char>) -> ChangeEvent {
    (label, c.1, c.2, c.3)
}

/// The fault changes under one label are those under another, relabelled.
proof fn lemma_fault_changes_relabel(
    other: Seq<(String, FaultIndexEntry)>,
    id: Seq<char>,
    kind: EntityKind,
    faults: Seq<(String, FaultSummary)>,
    l1: Seq<char>,
    l2: Seq<char>,
)
    ensures
        fault_changes(other, id, kind, faults, l2) == fault_changes(other, id, kind, faults, l1).map_values(
            |c: ChangeEvent| relabel(c, l2),
        ),
    decreases faults.len(),
{
    if faults.len() > 0 {
        lemma_fault_changes_relabel(other, id, kind, faults.drop_last(), l1, l2);
        assert(fault_changes(other, id, kind, faults, l2) =~= fault_changes(other, id, kind, faults, l1).map_values(
            |c: ChangeEvent| relabel(c, l2),
        ));
    }
}

/// The index changes under one label are those under another, relabelled.
proof fn lemma_index_changes_relabel(
    other: Seq<(String, FaultIndexEntry)>,
    idx: Seq<(String, FaultIndexEntry)>,
    l1: Seq<char>,
    l2: Seq<char>,
)
    ensures
        index_changes(other, idx, l2) == index_changes(other, idx, l1).map_values(|c: ChangeEvent| relabel(c, l2)),
    decreases idx.len(),
{
    if idx.len() > 0 {
        let last = idx.last();
        lemma_index_changes_relabel(other, idx.drop_last(), l1, l2);
        lemma_fault_changes_relabel(other, last.0@, last.1.kind, last.1.faults@, l1, l2);
        assert(index_changes(other, idx, l2) =~= index_changes(other, idx, l1).map_values(
            |c: ChangeEvent| relabel(c, l2),
        ));
    }
}

/// What a diff raises, the reverse diff clears: the `fault_cleared` events
/// from `next` back to `prev` are the `fault_raised` events from `prev` to
/// `next`, relabelled, in the same order.
pub proof fn law_reverse_diff_clears_raised(prev: Seq<(String, FaultIndexEntry)>, next: Seq<(String, FaultIndexEntry)>)
    ensures
        changes(prev, next).take(index_changes(prev, next, "fault_raised"@).len() as int)
            == index_changes(prev, next, "fault_raised"@),
        changes(next, prev).subrange(
            index_changes(next, prev, "fault_raised"@).len() as int,
            (index_changes(next, prev, "fault_raised"@).len() + index_changes(prev, next, "fault_cleared"@).len()) as int,
        ) == index_changes(prev, next, "fault_raised"@).map_values(|c: ChangeEvent| relabel(c, "fault_cleared"@)),
{
    lemma_index_changes_relabel(prev, next, "fault_raised"@, "fault_cleared"@);
    let r = index_changes(prev, next, "fault_raised"@);
    assert(changes(prev, next).take(r.len() as int) =~= r);
    let r2 = index_changes(next, prev, "fault_raised"@);
    let c2 = index_changes(prev, next, "fault_cleared"@);
    assert(changes(next, prev).subrange(r2.len() as int, (r2.len() + c2.len()) as int) =~= c2);
}

/// `e` is a `label` event for a fault of entity `id` (of `kind`) listed in
/// `faults` under a code that `other` does not hold for that entity.
pub open spec fn missing_fault_event(
    other: Seq<(String, FaultIndexEntry)>,
    id: Seq<char>,
    kind: EntityKind,
    faults: Seq<(String, FaultSummary)>,
    label: Seq<char>,
    e: ChangeEvent,
) -> bool {
    &&& e.0 == label
    &&& e.1 == kind
    &&& e.2 == id
    &&& exists|j: int| 0 <= j < faults.len() && e.3 == #[trigger] faults[j].1 && !has_fault(other, id, faults[j].0@)
}

/// `e` is a `label` event for some fault of `idx` that `other` does not hold.
pub open spec fn missing_index_event(
    other: Seq<(String, FaultIndexEntry)>,
    idx: Seq<(String, FaultIndexEntry)>,
    label: Seq<char>,
    e: ChangeEvent,
) -> bool {
    exists|i: int|
        0 <= i < idx.len() && #[trigger] missing_fault_event(other, idx[i].0@, idx[i].1.kind, idx[i].1.faults@, label, e)
}

proof fn lemma_contains_concat(a: Seq<ChangeEvent>, b: Seq<ChangeEvent>, e: ChangeEvent)
    ensures
        (a + b).contains(e) <==> (a.contains(e) || b.contains(e)),
{
    if (a + b).contains(e) {
        let k = choose|k: int| 0 <= k < (a + b).len() && (a + b)[k] == e;
        if k < a.len() {
            assert(a[k] == e);
        } else {
            assert(b[k - a.len()] == e);
        }
    }
    if a.contains(e) {
        let k = choose|k: int| 0 <= k < a.len() && a[k] == e;
        assert((a + b)[k] == e);
    }
    if b.contains(e) {
        let k = choose|k: int| 0 <= k < b.len() && b[k] == e;
        assert((a + b)[k + a.len()] == e);
    }
}

/// The events for one entity are exactly its faults that `other` lacks.
proof fn lemma_fault_changes_members(
    other: Seq<(String, FaultIndexEntry)>,
    id: Seq<char>,
    kind: EntityKind,
    faults: Seq<(String, FaultSummary)>,
    label: Seq<char>,
)
    ensures
        forall|e: ChangeEvent|
            #[trigger] fault_changes(other, id, kind, faults, label).contains(e) ==> missing_fault_event(
                other,
                id,
                kind,
                faults,
                label,
                e,
            ),
        forall|j: int|
            0 <= j < faults.len() && !has_fault(other, id, #[trigger] faults[j].0@) ==> fault_changes(
                other,
                id,
                kind,
                faults,
                label,
            ).contains((label, kind, id, faults[j].1)),
    decreases faults.len(),
{
    if faults.len() > 0 {
        let init = faults.drop_last();
        let last = faults.last();
        let before = fault_changes(other, id, kind, init, label);
        let fc = fault_changes(other, id, kind, faults, label);
        lemma_fault_changes_members(other, id, kind, init, label);
        let ev = (label, kind, id, last.1);
        assert forall|e: ChangeEvent| #[trigger] fc.contains(e) implies missing_fault_event(other, id, kind, faults, label, e) by {
            if before.contains(e) {
                assert(missing_fault_event(other, id, kind, init, label, e));
                let j = choose|j: int| 0 <= j < init.len() && e.3 == #[trigger] init[j].1 && !has_fault(other, id, init[j].0@);
                assert(faults[j] == init[j]);
            } else {
                let k = choose|k: int| 0 <= k < fc.len() && fc[k] == e;
                assert(!has_fault(other, id, last.0@));
                assert(fc == before.push(ev));
                assert(k == before.len());
                assert(faults[faults.len() - 1] == last);
            }
        }
        assert forall|j: int|
            0 <= j < faults.len() && !has_fault(other, id, #[trigger] faults[j].0@) implies fc.contains(
                (label, kind, id, faults[j].1),
            ) by {
            if j < init.len() {
                assert(init[j] == faults[j]);
                assert(before.contains((label, kind, id, init[j].1)));
                let k = choose|k: int| 0 <= k < before.len() && before[k] == (label, kind, id, init[j].1);
                if !has_fault(other, id, last.0@) {
                    assert(fc[k] == before.push(ev)[k]);
                }
                assert(fc[k] == (label, kind, id, faults[j].1));
            } else {
                assert(fc == before.push(ev));
                assert(fc[before.len() as int] == ev);
            }
        }
    }
}

/// What the diff between two indexes raises (or clears) under `label` is
/// exactly the faults of `idx` that `other` does not hold: every event names
/// an entity of `idx` and one of its faults whose code `other` lacks for that
/// entity, and every such fault has its event. With `idx` the newer index and
/// `other` the older these are the `fault_raised` events; the other way round,
/// the `fault_cleared` ones.
pub proof fn law_changes_are_the_missing_faults(
    other: Seq<(String, FaultIndexEntry)>,
    idx: Seq<(String, FaultIndexEntry)>,
    label: Seq<char>,
)
    ensures
        forall|e: ChangeEvent|
            #[trigger] index_changes(other, idx, label).contains(e) ==> missing_index_event(other, idx, label, e),
        forall|i: int, j: int|
            0 <= i < idx.len() && 0 <= j < idx[i].1.faults@.len() && !has_fault(
                other,
                idx[i].0@,
                #[trigger] idx[i].1.faults@[j].0@,
            ) ==> index_changes(other, idx, label).contains((label, idx[i].1.kind, idx[i].0@, idx[i].1.faults@[j].1)),
    decreases idx.len(),
{
    if idx.len() > 0 {
        let init = idx.drop_last();
        let last = idx.last();
        let n = idx.len() - 1;
        law_changes_are_the_missing_faults(other, init, label);
        lemma_fault_changes_members(other, last.0@, last.1.kind, last.1.faults@, label);
        let a = index_changes(other, init, label);
        let b = fault_changes(other, last.0@, last.1.kind, last.1.faults@, label);
        assert(index_changes(other, idx, label) == a + b);
        assert(idx[n] == last);
        assert forall|e: ChangeEvent| #[trigger] index_changes(other, idx, label).contains(e) implies missing_index_event(
            other,
            idx,
            label,
            e,
        ) by {
            lemma_contains_concat(a, b, e);
            if a.contains(e) {
                let i = choose|i: int|
                    0 <= i < init.len() && #[trigger] missing_fault_event(
                        other,
                        init[i].0@,
                        init[i].1.kind,
                        init[i].1.faults@,
                        label,
                        e,
                    );
                assert(idx[i] == init[i]);
            } else {
                assert(missing_fault_event(other, idx[n].0@, idx[n].1.kind, idx[n].1.faults@, label, e));
            }
        }
        assert forall|i: int, j: int|
            0 <= i < idx.len() && 0 <= j < idx[i].1.faults@.len() && !has_fault(
                other,
                idx[i].0@,
                #[trigger] idx[i].1.faults@[j].0@,
            ) implies index_changes(other, idx, label).contains(
            (label, idx[i].1.kind, idx[i].0@, idx[i].1.faults@[j].1),
        ) by {
            let e = (label, idx[i].1.kind, idx[i].0@, idx[i].1.faults@[j].1);
            lemma_contains_concat(a, b, e);
            if i < n {
                assert(idx[i] == init[i]);
                assert(a.contains(e));
            } else {
                assert(i == n);
                assert(b.contains(e));
            }
        }
    }
}

/// Every key of a sorted list lies above `k` when its first key does.
proof fn lemma_keys_above(idx: Seq<(String, FaultIndexEntry)>, k: Seq<char>)
    requires
        keys_sorted(idx),
        idx.len() > 0 ==> seq_less(k, idx[0].0@),
    ensures
        forall|j: int| 0 <= j < idx.len() ==> seq_less(k, #[trigger] idx[j].0@),
        assoc_lookup(idx, k) is None,
        !has_key(idx, k),
{
    assert forall|j: int| 0 <= j < idx.len() implies seq_less(k, #[trigger] idx[j].0@) by {
        if j > 0 {
            lemma_seq_less_trans(k, idx[0].0@, idx[j].0@);
        }
    }
    assert forall|j: int| 0 <= j < idx.len() implies idx[j].0@ != k by {
        lemma_seq_less_irrefl(k);
    }
    lemma_lookup_absent(idx, k);
}

/// The `health_changed` events of two sorted indexes name entities of either
/// index whose implied health differs between them.
proof fn lemma_health_changes_members(prev: Seq<(String, FaultIndexEntry)>, next: Seq<(String, FaultIndexEntry)>)
    requires
        keys_sorted(prev),
        keys_sorted(next),
    ensures
        forall|e: ChangeEvent|
            #[trigger] health_changes(prev, next).contains(e) ==> {
                &&& e.0 == "health_changed"@
                &&& has_key(prev, e.2) || has_key(next, e.2)
                &&& entry_health(assoc_lookup(prev, e.2)) != entry_health(assoc_lookup(next, e.2))
            },
    decreases prev.len() + next.len(),
{
    let hc = health_changes(prev, next);
    if prev.len() == 0 && next.len() == 0 {
    } else {
        let ps = prev.skip(1);
        let ns = next.skip(1);
        if prev.len() > 0 {
            assert forall|i: int, j: int| 0 <= i < j < ps.len() implies seq_less(ps[i].0@, ps[j].0@) by {
                assert(ps[i] == prev[i + 1] && ps[j] == prev[j + 1]);
            }
        }
        if next.len() > 0 {
            assert forall|i: int, j: int| 0 <= i < j < ns.len() implies seq_less(ns[i].0@, ns[j].0@) by {
                assert(ns[i] == next[i + 1] && ns[j] == next[j + 1]);
            }
        }
        if next.len() == 0 || (prev.len() > 0 && seq_less(prev[0].0@, next[0].0@)) {
            let id = prev[0].0@;
            let head = health_step(id, Some(prev[0].1), None);
            let rest = health_changes(ps, next);
            lemma_health_changes_members(ps, next);
            lemma_keys_above(next, id);
            lemma_keys_above(ps, id);
            assert(hc == head + rest);
            assert forall|e: ChangeEvent| #[trigger] hc.contains(e) implies {
                &&& e.0 == "health_changed"@
                &&& has_key(prev, e.2) || has_key(next, e.2)
                &&& entry_health(assoc_lookup(prev, e.2)) != entry_health(assoc_lookup(next, e.2))
            } by {
                lemma_contains_concat(head, rest, e);
                if head.contains(e) {
                    assert(prev[0].0@ == id);
                } else {
                    if has_key(ps, e.2) {
                        let j = choose|j: int| 0 <= j < ps.len() && #[trigger] ps[j].0@ == e.2;
                        assert(prev[j + 1] == ps[j]);
                    }
                    assert(e.2 != id);
                }
            }
        } else if prev.len() == 0 || seq_less(next[0].0@, prev[0].0@) {
            let id = next[0].0@;
            let head = health_step(id, None, Some(next[0].1));
            let rest = health_changes(prev, ns);
            lemma_health_changes_members(prev, ns);
            lemma_keys_above(prev, id);
            lemma_keys_above(ns, id);
            assert(hc == head + rest);
            assert forall|e: ChangeEvent| #[trigger] hc.contains(e) implies {
                &&& e.0 == "health_changed"@
                &&& has_key(prev, e.2) || has_key(next, e.2)
                &&& entry_health(assoc_lookup(prev, e.2)) != entry_health(assoc_lookup(next, e.2))
            } by {
                lemma_contains_concat(head, rest, e);
                if head.contains(e) {
                    assert(next[0].0@ == id);
                } else {
                    if has_key(ns, e.2) {
                        let j = choose|j: int| 0 <= j < ns.len() && #[trigger] ns[j].0@ == e.2;
                        assert(next[j + 1] == ns[j]);
                    }
                    assert(e.2 != id);
                }
            }
        } else {
            lemma_seq_less_total(prev[0].0@, next[0].0@);
            let id = prev[0].0@;
            assert(next[0].0@ == id);
            let head = health_step(id, Some(prev[0].1), Some(next[0].1));
            let rest = health_changes(ps, ns);
            lemma_health_changes_members(ps, ns);
            lemma_keys_above(ns, id);
            lemma_keys_above(ps, id);
            assert(hc == head + rest);
            assert forall|e: ChangeEvent| #[trigger] hc.contains(e) implies {
                &&& e.0 == "health_changed"@
                &&& has_key(prev, e.2) || has_key(next, e.2)
                &&& entry_health(assoc_lookup(prev, e.2)) != entry_health(assoc_lookup(next, e.2))
            } by {
                lemma_contains_concat(head, rest, e);
                if head.contains(e) {
                    assert(prev[0].0@ == id);
                } else {
                    if has_key(ps, e.2) {
                        let j = choose|j: int| 0 <= j < ps.len() && #[trigger] ps[j].0@ == e.2;
                        assert(prev[j + 1] == ps[j]);
                    }
                    if has_key(ns, e.2) {
                        let j = choose|j: int| 0 <= j < ns.len() && #[trigger] ns[j].0@ == e.2;
                        assert(next[j + 1] == ns[j]);
                    }
                    assert(e.2 != id);
                }
            }
        }
    }
}

/// A diff reports a health transition only for an entity whose health really
/// changed: every `health_changed` event between two views' fault indexes
/// names an entity of either index whose worst-wins health differs between
/// them.
pub proof fn law_health_events_mark_changed_health(
    prev_view: MergedView,
    next_view: MergedView,
    prev: Seq<(String, FaultIndexEntry)>,
    next: Seq<(String, FaultIndexEntry)>,
)
    requires
        indexes(prev_view, prev),
        indexes(next_view, next),
    ensures
        forall|e: ChangeEvent|
            #[trigger] health_changes(prev, next).contains(e) ==> {
                &&& e.0 == "health_changed"@
                &&& has_key(prev, e.2) || has_key(next, e.2)
                &&& entry_health(assoc_lookup(prev, e.2)) != entry_health(assoc_lookup(next, e.2))
            },
{
    lemma_health_changes_members(prev, next);
}

/// Whether `cs` holds a `health_changed` event for entity `id`.
pub open spec fn reports_health(cs: Seq<ChangeEvent>, id: Seq<char>) -> bool {
    exists|k: int| 0 <= k < cs.len() && (#[trigger] cs[k]).0 == "health_changed"@ && cs[k].2 == id
}

/// An entry without a worst fault implies full health.
proof fn lemma_no_worst_is_okay(e: Option<FaultIndexEntry>)
    ensures
        entry_worst(e) is None ==> entry_health(e) == Health::Okay,
{
    if let Some(entry) = e {
        if entry.faults@.len() > 0 {
            assert(worst_fault(entry.faults@) is Some);
        }
    }
}

/// A changed health yields exactly one `health_changed` event for the entity.
proof fn lemma_step_reports(id: Seq<char>, p: Option<FaultIndexEntry>, q: Option<FaultIndexEntry>)
    requires
        entry_health(p) != entry_health(q),
    ensures
        health_step(id, p, q).len() == 1,
        health_step(id, p, q)[0].0 == "health_changed"@,
        health_step(id, p, q)[0].2 == id,
{
    lemma_no_worst_is_okay(p);
    lemma_no_worst_is_okay(q);
}

/// Events kept after a prefix are still reported.
proof fn lemma_reports_after(head: Seq<ChangeEvent>, rest: Seq<ChangeEvent>, id: Seq<char>)
    requires
        reports_health(rest, id),
    ensures
        reports_health(head + rest, id),
{
    let k = choose|k: int| 0 <= k < rest.len() && (#[trigger] rest[k]).0 == "health_changed"@ && rest[k].2 == id;
    assert((head + rest)[k + head.len()] == rest[k]);
}

/// Every entity of two sorted indexes whose implied health differs between
/// them has its `health_changed` event.
proof fn lemma_health_changes_complete(prev: Seq<(String, FaultIndexEntry)>, next: Seq<(String, FaultIndexEntry)>)
    requires
        keys_sorted(prev),
        keys_sorted(next),
    ensures
        forall|id: Seq<char>|
            entry_health(#[trigger] assoc_lookup(prev, id)) != entry_health(assoc_lookup(next, id)) ==> reports_health(
                health_changes(prev, next),
                id,
            ),
    decreases prev.len() + next.len(),
{
    let hc = health_changes(prev, next);
    if prev.len() == 0 && next.len() == 0 {
    } else {
        let ps = prev.skip(1);
        let ns = next.skip(1);
        if prev.len() > 0 {
            assert forall|i: int, j: int| 0 <= i < j < ps.len() implies seq_less(ps[i].0@, ps[j].0@) by {
                assert(ps[i] == prev[i + 1] && ps[j] == prev[j + 1]);
            }
        }
        if next.len() > 0 {
            assert forall|i: int, j: int| 0 <= i < j < ns.len() implies seq_less(ns[i].0@, ns[j].0@) by {
                assert(ns[i] == next[i + 1] && ns[j] == next[j + 1]);
            }
        }
        if next.len() == 0 || (prev.len() > 0 && seq_less(prev[0].0@, next[0].0@)) {
            let id0 = prev[0].0@;
            let head = health_step(id0, Some(prev[0].1), None);
            let rest = health_changes(ps, next);
            lemma_health_changes_complete(ps, next);
            lemma_keys_above(next, id0);
            assert(hc == head + rest);
            assert forall|id: Seq<char>|
                entry_health(#[trigger] assoc_lookup(prev, id)) != entry_health(assoc_lookup(next, id)) implies reports_health(
                hc,
                id,
            ) by {
                if id == id0 {
                    lemma_step_reports(id0, Some(prev[0].1), None);
                    assert(hc[0] == head[0]);
                } else {
                    assert(assoc_lookup(prev, id) == assoc_lookup(ps, id));
                    lemma_reports_after(head, rest, id);
                }
            }
        } else if prev.len() == 0 || seq_less(next[0].0@, prev[0].0@) {
            let id0 = next[0].0@;
            let head = health_step(id0, None, Some(next[0].1));
            let rest = health_changes(prev, ns);
            lemma_health_changes_complete(prev, ns);
            lemma_keys_above(prev, id0);
            assert(hc == head + rest);
            assert forall|id: Seq<char>|
                entry_health(#[trigger] assoc_lookup(prev, id)) != entry_health(assoc_lookup(next, id)) implies reports_health(
                hc,
                id,
            ) by {
                if id == id0 {
                    lemma_step_reports(id0, None, Some(next[0].1));
                    assert(hc[0] == head[0]);
                } else {
                    assert(assoc_lookup(next, id) == assoc_lookup(ns, id));
                    lemma_reports_after(head, rest, id);
                }
            }
        } else {
            lemma_seq_less_total(prev[0].0@, next[0].0@);
            let id0 = prev[0].0@;
            assert(next[0].0@ == id0);
            let head = health_step(id0, Some(prev[0].1), Some(next[0].1));
            let rest = health_changes(ps, ns);
            lemma_health_changes_complete(ps, ns);
            assert(hc == head + rest);
            assert forall|id: Seq<char>|
                entry_health(#[trigger] assoc_lookup(prev, id)) != entry_health(assoc_lookup(next, id)) implies reports_health(
                hc,
                id,
            ) by {
                if id == id0 {
                    lemma_step_reports(id0, Some(prev[0].1), Some(next[0].1));
                    assert(hc[0] == head[0]);
                } else {
                    assert(assoc_lookup(prev, id) == assoc_lookup(ps, id));
                    assert(assoc_lookup(next, id) == assoc_lookup(ns, id));
                    lemma_reports_after(head, rest, id);
                }
            }
        }
    }
}

/// Every change of an entity's worst-wins health is reported: between two
/// views' fault indexes, each entity whose implied health differs (it rose,
/// dropped, appeared or cleared) has a `health_changed` event among the
/// diff's changes. Together with
/// [`law_health_events_mark_changed_health`], the health events are exactly
/// the entities whose health moved.
pub proof fn law_every_health_change_is_reported(
    prev_view: MergedView,
    next_view: MergedView,
    prev: Seq<(String, FaultIndexEntry)>,
    next: Seq<(String, FaultIndexEntry)>,
    id: Seq<char>,
)
    requires
        indexes(prev_view, prev),
        indexes(next_view, next),
        entry_health(assoc_lookup(prev, id)) != entry_health(assoc_lookup(next, id)),
    ensures
        reports_health(changes(prev, next), id),
{
    lemma_health_changes_complete(prev, next);
    let a = index_changes(prev, next, "fault_raised"@) + index_changes(next, prev, "fault_cleared"@);
    assert(changes(prev, next) == a + health_changes(prev, next));
    lemma_reports_after(a, health_changes(prev, next), id);
}

} // verus!
