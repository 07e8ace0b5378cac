//! The merged read-model and the pure read-family resolvers over it.
//!
//! [`MergePipeline`] folds provider snapshots, and optionally a grouping
//! [`Manifest`], into one [`MergedView`]; the resolvers on [`MergedView`] are
//! pure functions from the view and the request parameters to wire types.

use vstd::prelude::*;
use crate::manifest::{declared_seq, Manifest};
use crate::model::{
    Collection, CollectionMeta, DtcStatus, Entity, EntityKind, EntityMeta, EntityMetaView, EntityView,
    EnvironmentData, ExtendedDataRecords, FaultDetail, FaultDetailMeta, FaultItem,
    FaultList, FaultListMeta, FaultSummary, GenericError, copy_faults, entity_views, opt_view,
    same_fault, same_faults,
};
use crate::provider::{
    EdgeView, ProviderSnapshot, Relation, RelationshipEdge, edge_views, env_map, envs_sorted, envs_under,
    extend_environments, find_environment, holds_environment, relation_segment, same_env,
};
use crate::action::{copy_value, json_object, json_object_of, members_view};
use crate::sorted::{insert_each_sorted, inserted_all, sorted_map};
use serde_json::Value;
use crate::assoc::{assoc_lookup, lemma_lookup_at};
use crate::text::{append_str, owned, push_char, seq_less, str_eq, str_less, lemma_seq_less_asym,
    lemma_seq_less_irrefl, lemma_seq_less_total, lemma_seq_less_trans};

verus! {

/// The API path prefix every served resource hangs off.
pub const API_BASE: &'static str = "/api/v1";

/// The SOVD/UDS contract version this surface speaks.
pub const SOVD_VERSION: &'static str = "1.0.0";

/// A resolver failure that maps to a contract-shaped error response; every
/// variant is a `404 Not Found`.
#[derive(Clone, Debug, PartialEq, Eq)]
pub enum ResolveError {
    /// The addressed entity, fault, or data path does not exist.
    NotFound(GenericError),
}

/// Whether `e` is the not-found error with this code and message, carrying the
/// single parameter `key = value`.
pub open spec fn is_not_found(
    e: ResolveError,
    code: Seq<char>,
    message: Seq<char>,
    key: Seq<char>,
    value: Seq<char>,
) -> bool {
    match e {
        ResolveError::NotFound(g) => {
            &&& g.error_code@ == code
            &&& g.message@ == message
            &&& g.parameters@.len() == 1
            &&& g.parameters@[0].0@ == key
            &&& g.parameters@[0].1@ == value
        },
    }
}

fn not_found(code: &str, message: &str, key: &str, value: &str) -> (r: ResolveError)
    ensures
        is_not_found(r, code@, message@, key@, value@),
{
    let mut parameters: Vec<(String, String)> = Vec::new();
    parameters.push((owned(key), owned(value)));
    ResolveError::NotFound(
        GenericError { error_code: owned(code), message: owned(message), parameters },
    )
}

impl ResolveError {
    /// `entity-not-found` for `entity_id`.
    pub fn entity_not_found(entity_id: &str) -> (r: ResolveError)
        ensures
            is_not_found(r, "entity-not-found"@, "Entity not found"@, "entity_id"@, entity_id@),
    {
        not_found("entity-not-found", "Entity not found", "entity_id", entity_id)
    }

    /// `fault-not-found` for `fault_code`.
    pub fn fault_not_found(fault_code: &str) -> (r: ResolveError)
        ensures
            is_not_found(r, "fault-not-found"@, "Fault not found"@, "fault_code"@, fault_code@),
    {
        not_found("fault-not-found", "Fault not found", "fault_code", fault_code)
    }

    /// `data-not-found` for the data path `path`.
    pub fn data_not_found(path: &str) -> (r: ResolveError)
        ensures
            is_not_found(r, "data-not-found"@, "Data resource not found"@, "data_id"@, path@),
    {
        not_found("data-not-found", "Data resource not found", "data_id", path)
    }
}

/// Which lifecycle states a fault list is filtered to (`?status=` query).
#[derive(Clone, Copy, Debug, PartialEq, Eq, Structural)]
pub enum FaultStatusFilter {
    /// Every fault regardless of lifecycle state; the default with no query.
    All,
    /// Pending / pre-failed faults.
    Pending,
    /// Confirmed faults.
    Confirmed,
    /// Cleared faults.
    Cleared,
    /// Healed faults.
    Healed,
}

/// Every fault, the filter with no query.
impl Default for FaultStatusFilter {
    fn default() -> (r: FaultStatusFilter)
        ensures
            r == FaultStatusFilter::All,
    {
        FaultStatusFilter::All
    }
}

/// The filter a `?status=` query value selects, if it is a known one.
pub open spec fn filter_of_query(value: Option<Seq<char>>) -> Option<FaultStatusFilter> {
    match value {
        None => Some(FaultStatusFilter::All),
        Some(v) => if v == "all"@ {
            Some(FaultStatusFilter::All)
        } else if v == "pending"@ {
            Some(FaultStatusFilter::Pending)
        } else if v == "confirmed"@ {
            Some(FaultStatusFilter::Confirmed)
        } else if v == "cleared"@ {
            Some(FaultStatusFilter::Cleared)
        } else if v == "healed"@ {
            Some(FaultStatusFilter::Healed)
        } else {
            None
        },
    }
}

/// Whether a fault with raw lifecycle status `status` passes the filter.
pub open spec fn filter_passes(f: FaultStatusFilter, status: Seq<char>) -> bool {
    match f {
        FaultStatusFilter::All => true,
        FaultStatusFilter::Pending => status == "PREFAILED"@ || status == "PENDING"@,
        FaultStatusFilter::Confirmed => status == "CONFIRMED"@,
        FaultStatusFilter::Cleared => status == "CLEARED"@,
        FaultStatusFilter::Healed => status == "HEALED"@,
    }
}

/// The characters of an optional string slice.
pub open spec fn opt_str(o: Option<&str>) -> Option<Seq<char>> {
    match o {
        Some(s) => Some(s@),
        None => None,
    }
}

impl FaultStatusFilter {
    /// Parse the `?status=` query value; an absent value selects
    /// [`FaultStatusFilter::All`], an unrecognised one gives `None` (answered
    /// `400 Bad Request`).
    pub fn parse(value: Option<&str>) -> (r: Option<FaultStatusFilter>)
        ensures
            r == filter_of_query(opt_str(value)),
    {
        match value {
            None => Some(FaultStatusFilter::All),
            Some(v) => {
                if str_eq(v, "all") {
                    Some(FaultStatusFilter::All)
                } else if str_eq(v, "pending") {
                    Some(FaultStatusFilter::Pending)
                } else if str_eq(v, "confirmed") {
                    Some(FaultStatusFilter::Confirmed)
                } else if str_eq(v, "cleared") {
                    Some(FaultStatusFilter::Cleared)
                } else if str_eq(v, "healed") {
                    Some(FaultStatusFilter::Healed)
                } else {
                    None
                }
            },
        }
    }

    /// Whether a fault with raw lifecycle status `status` passes this filter.
    pub fn matches(self, status: &str) -> (r: bool)
        ensures
            r == filter_passes(self, status@),
    {
        match self {
            FaultStatusFilter::All => true,
            FaultStatusFilter::Pending => str_eq(status, "PREFAILED") || str_eq(status, "PENDING"),
            FaultStatusFilter::Confirmed => str_eq(status, "CONFIRMED"),
            FaultStatusFilter::Cleared => str_eq(status, "CLEARED"),
            FaultStatusFilter::Healed => str_eq(status, "HEALED"),
        }
    }
}

/// The plural collection segment an entity of this kind is listed under.
pub open spec fn kind_collection(kind: EntityKind) -> Seq<char> {
    match kind {
        EntityKind::Area => "areas"@,
        EntityKind::Component => "components"@,
        EntityKind::Function => "functions"@,
        EntityKind::App => "apps"@,
    }
}

/// The singular type token of an entity kind.
pub open spec fn kind_singular(kind: EntityKind) -> Seq<char> {
    match kind {
        EntityKind::Area => "area"@,
        EntityKind::Component => "component"@,
        EntityKind::Function => "function"@,
        EntityKind::App => "app"@,
    }
}

/// The plural collection segment for an entity kind (`apps`, `components`, ...).
pub fn collection_segment(kind: EntityKind) -> (r: &'static str)
    ensures
        r@ == kind_collection(kind),
{
    match kind {
        EntityKind::Area => "areas",
        EntityKind::Component => "components",
        EntityKind::Function => "functions",
        EntityKind::App => "apps",
    }
}

/// The singular type token for an entity kind (`app`, `component`, ...).
pub fn type_singular(kind: EntityKind) -> (r: &'static str)
    ensures
        r@ == kind_singular(kind),
{
    match kind {
        EntityKind::Area => "area",
        EntityKind::Component => "component",
        EntityKind::Function => "function",
        EntityKind::App => "app",
    }
}

/// The relationship edges a `parent -> child` hierarchy edge surfaces as, by
/// the kinds at each end: an area groups its components (and contains them)
/// and contains its other children; a component or function hosts its apps; a
/// component nests its subcomponents.
pub open spec fn synthesized(parent: EntityKind, child: EntityKind) -> Seq<Relation> {
    match (parent, child) {
        (EntityKind::Area, EntityKind::Component) => seq![Relation::Components, Relation::Contains],
        (EntityKind::Area, _) => seq![Relation::Contains],
        (EntityKind::Component, EntityKind::App) => seq![Relation::Hosts],
        (EntityKind::Function, EntityKind::App) => seq![Relation::Hosts],
        (EntityKind::Component, EntityKind::Component) => seq![Relation::Subcomponents],
        _ => Seq::empty(),
    }
}

/// The relationship edges a `parent -> child` hierarchy edge surfaces as.
pub fn synthesized_relations(parent: EntityKind, child: EntityKind) -> (r: Vec<Relation>)
    ensures
        r@ == synthesized(parent, child),
{
    let mut v: Vec<Relation> = Vec::new();
    match (parent, child) {
        (EntityKind::Area, EntityKind::Component) => {
            v.push(Relation::Components);
            v.push(Relation::Contains);
        },
        (EntityKind::Area, _) => {
            v.push(Relation::Contains);
        },
        (EntityKind::Component, EntityKind::App) | (EntityKind::Function, EntityKind::App) => {
            v.push(Relation::Hosts);
        },
        (EntityKind::Component, EntityKind::Component) => {
            v.push(Relation::Subcomponents);
        },
        _ => {},
    }
    proof {
        assert(v@ =~= synthesized(parent, child));
    }
    v
}

/// An entity shaped as a relationship sub-resource item: no inline parent and
/// no `component_id` decoration.
pub open spec fn rel_item_view(e: EntityView) -> EntityView {
    EntityView {
        parent_id: None,
        x_medkit: match e.x_medkit {
            Some(m) => Some(EntityMetaView { component_id: None, ..m }),
            None => None,
        },
        ..e
    }
}

/// Shape an entity as a relationship sub-resource item: a bare reference with no
/// inline parent and no top-level `component_id` decoration.
pub fn rel_item(entity: &Entity) -> (r: Entity)
    ensures
        r@ == rel_item_view(entity@),
{
    let mut item = entity.duplicate();
    item.parent_id = None;
    item.x_medkit = match &entity.x_medkit {
        Some(m) => {
            let mut meta = m.duplicate();
            meta.component_id = None;
            Some(meta)
        },
        None => None,
    };
    item
}

/// The position of the first entity with id `id`; the length when there is none.
pub open spec fn first_with_id(es: Seq<EntityView>, id: Seq<char>) -> int
    decreases es.len(),
{
    if es.len() == 0 {
        0
    } else if es[0].id == id {
        0
    } else {
        1 + first_with_id(es.skip(1), id)
    }
}

/// `first_with_id` is the position of the first match, or the length.
pub proof fn lemma_first_with_id(es: Seq<EntityView>, id: Seq<char>)
    ensures
        0 <= first_with_id(es, id) <= es.len(),
        first_with_id(es, id) < es.len() ==> es[first_with_id(es, id)].id == id,
        forall|k: int| 0 <= k < first_with_id(es, id) ==> es[k].id != id,
    decreases es.len(),
{
    if es.len() > 0 && es[0].id != id {
        lemma_first_with_id(es.skip(1), id);
        let f = first_with_id(es.skip(1), id);
        assert forall|k: int| 0 <= k < 1 + f implies es[k].id != id by {
            if k > 0 {
                assert(es.skip(1)[k - 1] == es[k]);
            }
        }
    }
}

/// The entity with id `id`, if any (the first, should there be several).
pub open spec fn lookup_view(es: Seq<EntityView>, id: Seq<char>) -> Option<EntityView> {
    if first_with_id(es, id) < es.len() {
        Some(es[first_with_id(es, id)])
    } else {
        None
    }
}

/// Insert `e`, replacing the entity with the same id in place if there is one,
/// else appending it.
pub open spec fn upsert(es: Seq<EntityView>, e: EntityView) -> Seq<EntityView> {
    if first_with_id(es, e.id) < es.len() {
        es.update(first_with_id(es, e.id), e)
    } else {
        es.push(e)
    }
}

/// Upsert each of `items` in order.
pub open spec fn upsert_all(acc: Seq<EntityView>, items: Seq<EntityView>) -> Seq<EntityView>
    decreases items.len(),
{
    if items.len() == 0 {
        acc
    } else {
        upsert(upsert_all(acc, items.drop_last()), items.last())
    }
}

/// The position of the first entity with id `id`.
fn entity_position(es: &Vec<Entity>, id: &str) -> (r: Option<usize>)
    ensures
        match r {
            Some(i) => i == first_with_id(entity_views(es@), id@) && i < es@.len(),
            None => first_with_id(entity_views(es@), id@) == es@.len(),
        },
{
    let ghost ev = entity_views(es@);
    proof {
        lemma_first_with_id(ev, id@);
    }
    let n = es.len();
    let mut i: usize = 0;
    while i < n
        invariant
            n == es@.len(),
            ev == entity_views(es@),
            i <= n,
            forall|k: int| 0 <= k < i ==> ev[k].id != id@,
            0 <= first_with_id(ev, id@) <= ev.len(),
            first_with_id(ev, id@) < ev.len() ==> ev[first_with_id(ev, id@)].id == id@,
            forall|k: int| 0 <= k < first_with_id(ev, id@) ==> ev[k].id != id@,
        decreases n - i,
    {
        if str_eq(es[i].id.as_str(), id) {
            assert(ev[i as int].id == id@);
            return Some(i);
        }
        i = i + 1;
    }
    None
}

/// Upsert `e` into `es` by id.
fn upsert_entity(es: &mut Vec<Entity>, e: Entity)
    ensures
        entity_views(final(es)@) == upsert(entity_views(old(es)@), e@),
{
    let ghost before = entity_views(es@);
    match entity_position(es, e.id.as_str()) {
        Some(i) => {
            es.set(i, e);
            proof {
                assert(entity_views(es@) =~= before.update(i as int, e@));
            }
        },
        None => {
            es.push(e);
            proof {
                assert(entity_views(es@) =~= before.push(e@));
            }
        },
    }
}

/// Entity ids are pairwise distinct.
pub open spec fn unique_ids(es: Seq<EntityView>) -> bool {
    forall|i: int, j: int| 0 <= i < es.len() && 0 <= j < es.len() && i != j ==> es[i].id != es[j].id
}

/// Upserting keeps ids distinct.
pub proof fn lemma_upsert_unique(es: Seq<EntityView>, e: EntityView)
    requires
        unique_ids(es),
    ensures
        unique_ids(upsert(es, e)),
{
    lemma_first_with_id(es, e.id);
}

/// Upserting a sequence keeps ids distinct.
pub proof fn lemma_upsert_all_unique(acc: Seq<EntityView>, items: Seq<EntityView>)
    requires
        unique_ids(acc),
    ensures
        unique_ids(upsert_all(acc, items)),
    decreases items.len(),
{
    if items.len() > 0 {
        lemma_upsert_all_unique(acc, items.drop_last());
        lemma_upsert_unique(upsert_all(acc, items.drop_last()), items.last());
    }
}

/// Upsert each of `items` into `es`, consuming them.
fn upsert_each(es: &mut Vec<Entity>, items: Vec<Entity>)
    ensures
        entity_views(final(es)@) == upsert_all(entity_views(old(es)@), entity_views(items@)),
{
    let ghost start = entity_views(es@);
    let ghost all = entity_views(items@);
    let mut rest = reversed(items);
    let n = rest.len();
    let mut i: usize = 0;
    proof {
        assert(all.take(0) =~= Seq::<EntityView>::empty());
    }
    while i < n
        invariant
            n == all.len(),
            i <= n,
            entity_views(rest@) == all.subrange(i as int, n as int).reverse(),
            entity_views(es@) == upsert_all(start, all.take(i as int)),
        decreases n - i,
    {
        let ghost r0 = entity_views(rest@);
        let ghost rv0 = rest@;
        let e = match rest.pop() {
            Some(x) => x,
            None => {
                proof {
                    assert(r0.len() == n - i);
                }
                return;
            },
        };
        proof {
            assert(r0.last() == all[i as int]);
            assert(e@ == all[i as int]);
            assert(rest@ =~= rv0.drop_last());
            assert forall|k: int| 0 <= k < n - i - 1 implies #[trigger] entity_views(rest@)[k]
                == all.subrange(i + 1, n as int).reverse()[k] by {
                assert(entity_views(rest@)[k] == r0[k]);
                assert(r0[k] == all.subrange(i as int, n as int)[n - i - 1 - k]);
            }
            assert(entity_views(rest@) =~= all.subrange(i + 1, n as int).reverse());
            assert(all.take(i + 1).drop_last() =~= all.take(i as int));
        }
        upsert_entity(es, e);
        i = i + 1;
    }
    proof {
        assert(all.take(n as int) =~= all);
    }
}

/// The same elements in reverse order.
pub fn reversed<T>(v: Vec<T>) -> (r: Vec<T>)
    ensures
        r@ == v@.reverse(),
{
    let ghost orig = v@;
    let mut src = v;
    let mut out: Vec<T> = Vec::new();
    while src.len() > 0
        invariant
            orig == src@ + out@.reverse(),
        decreases src@.len(),
    {
        let ghost s0 = src@;
        let ghost o0 = out@;
        let x = src.pop().unwrap();
        out.push(x);
        proof {
            assert(s0 =~= src@.push(x));
            assert(out@.reverse() =~= seq![x] + o0.reverse());
            assert(orig =~= src@ + out@.reverse());
        }
    }
    proof {
        assert(orig =~= out@.reverse());
        assert(out@ =~= orig.reverse());
    }
    out
}

/// The keys of a fault-entry list are strictly increasing.
pub open spec fn keys_sorted(entries: Seq<(String, Vec<FaultSummary>)>) -> bool {
    forall|i: int, j: int| 0 <= i < j < entries.len() ==> seq_less(entries[i].0@, entries[j].0@)
}

/// Whether some entry is keyed `k`.
pub open spec fn has_key(entries: Seq<(String, Vec<FaultSummary>)>, k: Seq<char>) -> bool {
    exists|i: int| 0 <= i < entries.len() && #[trigger] entries[i].0@ == k
}

/// The fault-entry list read as a map from entity id to its faults.
pub open spec fn entries_map(entries: Seq<(String, Vec<FaultSummary>)>) -> Map<Seq<char>, Seq<FaultSummary>> {
    Map::new(
        |k: Seq<char>| has_key(entries, k),
        |k: Seq<char>|
            match assoc_lookup(entries, k) {
                Some(v) => v@,
                None => Seq::empty(),
            },
    )
}

/// In a sorted entry list each key occurs once, so the map gives each entry's
/// faults under its key.
pub proof fn lemma_entries_map_at(entries: Seq<(String, Vec<FaultSummary>)>, i: int)
    requires
        keys_sorted(entries),
        0 <= i < entries.len(),
    ensures
        entries_map(entries).contains_key(entries[i].0@),
        entries_map(entries)[entries[i].0@] == entries[i].1@,
{
    let k = entries[i].0@;
    assert(has_key(entries, k));
    assert forall|c: int| 0 <= c < i implies entries[c].0@ != k by {
        assert(seq_less(entries[c].0@, entries[i].0@));
        lemma_seq_less_irrefl(k);
    }
    lemma_lookup_at(entries, i, k);
}

/// Map `key` onto `faults` in a sorted entry list, replacing an entry with the
/// same key or inserting a new one at its sorted position.
fn insert_sorted(entries: &mut Vec<(String, Vec<FaultSummary>)>, key: String, faults: Vec<FaultSummary>)
    requires
        keys_sorted(old(entries)@),
    ensures
        keys_sorted(final(entries)@),
        entries_map(final(entries)@) == entries_map(old(entries)@).insert(key@, faults@),
{
    let ghost before = entries@;
    let ghost kv = key@;
    let ghost fv = faults@;
    let n = entries.len();
    let mut p: usize = 0;
    let mut found = false;
    while p < n && !found
        invariant
            n == entries@.len(),
            entries@ == before,
            p <= n,
            kv == key@,
            forall|k: int| 0 <= k < p ==> seq_less(#[trigger] entries@[k].0@, kv),
            found ==> p < n && !seq_less(entries@[p as int].0@, kv),
        decreases n - p, if found { 0int } else { 1int },
    {
        if str_less(entries[p].0.as_str(), key.as_str()) {
            p = p + 1;
        } else {
            found = true;
        }
    }
    proof {
        if p < n {
            lemma_seq_less_total(entries@[p as int].0@, kv);
        }
    }
    if p < n && str_eq(entries[p].0.as_str(), key.as_str()) {
        let e = (key, faults);
        entries.set(p, e);
        proof {
            let after = entries@;
            assert forall|i: int, j: int| 0 <= i < j < after.len() implies seq_less(after[i].0@, after[j].0@) by {
                assert(seq_less(before[i].0@, before[j].0@));
            }
            assert forall|k: Seq<char>| #[trigger] has_key(after, k) <==> has_key(before, k) by {
                if has_key(before, k) {
                    let i = choose|i: int| 0 <= i < before.len() && #[trigger] before[i].0@ == k;
                    assert(after[i].0@ == k);
                }
                if has_key(after, k) {
                    let i = choose|i: int| 0 <= i < after.len() && #[trigger] after[i].0@ == k;
                    assert(before[i].0@ == k);
                }
            }
            assert(has_key(before, kv)) by {
                assert(before[p as int].0@ == kv);
            }
            assert forall|k: Seq<char>| #[trigger] entries_map(after).contains_key(k) implies entries_map(after)[k]
                == entries_map(before).insert(kv, fv)[k] by {
                let i = choose|i: int| 0 <= i < after.len() && #[trigger] after[i].0@ == k;
                lemma_entries_map_at(after, i);
                lemma_entries_map_at(before, i);
            }
            assert(entries_map(after) =~= entries_map(before).insert(kv, fv));
        }
    } else {
        let e = (key, faults);
        entries.insert(p, e);
        proof {
            let after = entries@;
            assert(after =~= before.insert(p as int, e));
            if p < n {
                assert(seq_less(kv, before[p as int].0@));
            }
            assert forall|i: int, j: int| 0 <= i < j < after.len() implies seq_less(after[i].0@, after[j].0@) by {
                if j < p {
                    assert(seq_less(before[i].0@, before[j].0@));
                } else if j == p {
                    assert(after[i] == before[i]);
                } else if i < p {
                    assert(after[j] == before[j - 1]);
                    assert(seq_less(before[i].0@, kv));
                    if j - 1 > p {
                        assert(seq_less(before[p as int].0@, before[j - 1].0@));
                        lemma_seq_less_trans(kv, before[p as int].0@, before[j - 1].0@);
                    }
                    lemma_seq_less_trans(before[i].0@, kv, before[j - 1].0@);
                } else if i == p {
                    assert(after[j] == before[j - 1]);
                    if j - 1 > p {
                        assert(seq_less(before[p as int].0@, before[j - 1].0@));
                        lemma_seq_less_trans(kv, before[p as int].0@, before[j - 1].0@);
                    }
                } else {
                    assert(after[i] == before[i - 1] && after[j] == before[j - 1]);
                    assert(seq_less(before[i - 1].0@, before[j - 1].0@));
                }
            }
            assert forall|k: Seq<char>| #[trigger] has_key(after, k) <==> (has_key(before, k) || k == kv) by {
                if has_key(before, k) {
                    let i = choose|i: int| 0 <= i < before.len() && #[trigger] before[i].0@ == k;
                    if i < p {
                        assert(after[i].0@ == k);
                    } else {
                        assert(after[i + 1].0@ == k);
                    }
                }
                if k == kv {
                    assert(after[p as int].0@ == k);
                }
                if has_key(after, k) {
                    let i = choose|i: int| 0 <= i < after.len() && #[trigger] after[i].0@ == k;
                    if i < p {
                        assert(before[i].0@ == k);
                    } else if i > p {
                        assert(before[i - 1].0@ == k);
                    }
                }
            }
            assert forall|k: Seq<char>| #[trigger] entries_map(after).contains_key(k) implies entries_map(after)[k]
                == entries_map(before).insert(kv, fv)[k] by {
                let i = choose|i: int| 0 <= i < after.len() && #[trigger] after[i].0@ == k;
                lemma_entries_map_at(after, i);
                if i < p {
                    lemma_entries_map_at(before, i);
                    assert(seq_less(k, kv));
                    lemma_seq_less_irrefl(kv);
                } else if i > p {
                    lemma_entries_map_at(before, i - 1);
                    if i - 1 > p {
                        assert(seq_less(before[p as int].0@, before[i - 1].0@));
                        lemma_seq_less_trans(kv, before[p as int].0@, before[i - 1].0@);
                    }
                    assert(seq_less(kv, k));
                    lemma_seq_less_irrefl(kv);
                }
            }
            assert(entries_map(after) =~= entries_map(before).insert(kv, fv));
        }
    }
}

/// Map each entry's key onto its faults in order, later entries winning.
pub open spec fn insert_all(
    m: Map<Seq<char>, Seq<FaultSummary>>,
    es: Seq<(String, Vec<FaultSummary>)>,
) -> Map<Seq<char>, Seq<FaultSummary>>
    decreases es.len(),
{
    if es.len() == 0 {
        m
    } else {
        insert_all(m, es.drop_last()).insert(es.last().0@, es.last().1@)
    }
}

/// Insert each of `items` into the sorted entry list, consuming them.
fn insert_each(entries: &mut Vec<(String, Vec<FaultSummary>)>, items: Vec<(String, Vec<FaultSummary>)>)
    requires
        keys_sorted(old(entries)@),
    ensures
        keys_sorted(final(entries)@),
        entries_map(final(entries)@) == insert_all(entries_map(old(entries)@), items@),
{
    let ghost start = entries_map(entries@);
    let ghost all = items@;
    let mut rest = reversed(items);
    let n = rest.len();
    let mut i: usize = 0;
    proof {
        assert(all.take(0) =~= Seq::<(String, Vec<FaultSummary>)>::empty());
    }
    while i < n
        invariant
            n == all.len(),
            i <= n,
            rest@ == all.subrange(i as int, n as int).reverse(),
            keys_sorted(entries@),
            entries_map(entries@) == insert_all(start, all.take(i as int)),
        decreases n - i,
    {
        let ghost rv0 = rest@;
        let e = match rest.pop() {
            Some(x) => x,
            None => {
                return;
            },
        };
        proof {
            assert(e == all[i as int]);
            assert(rest@ =~= rv0.drop_last());
            assert forall|k: int| 0 <= k < n - i - 1 implies #[trigger] rest@[k] == all.subrange(
                i + 1,
                n as int,
            ).reverse()[k] by {
                assert(rv0[k] == all.subrange(i as int, n as int)[n - i - 1 - k]);
            }
            assert(rest@ =~= all.subrange(i + 1, n as int).reverse());
            assert(all.take(i + 1).drop_last() =~= all.take(i as int));
        }
        let (k, v) = e;
        insert_sorted(entries, k, v);
        i = i + 1;
    }
    proof {
        assert(all.take(n as int) =~= all);
    }
}

/// Whether some edge already links `from` to `item_id` by `rel`.
pub open spec fn has_triple(acc: Seq<EdgeView>, from: Seq<char>, rel: Relation, item_id: Seq<char>) -> bool {
    exists|i: int|
        0 <= i < acc.len() && #[trigger] acc[i] == EdgeView { relation: rel, ..acc[i] } && acc[i].from_id
            == from && acc[i].item.id == item_id
}

/// Add, for each of `rels` in order, the edge `from -rel-> child` unless an
/// edge with the same parent, relation and item id is already present.
pub open spec fn synth_rels(
    acc: Seq<EdgeView>,
    from: Seq<char>,
    child: EntityView,
    rels: Seq<Relation>,
) -> Seq<EdgeView>
    decreases rels.len(),
{
    if rels.len() == 0 {
        acc
    } else {
        let before = synth_rels(acc, from, child, rels.drop_last());
        let rel = rels.last();
        if has_triple(before, from, rel, child.id) {
            before
        } else {
            before.push(EdgeView { from_id: from, relation: rel, item: rel_item_view(child) })
        }
    }
}

/// Add the relationship edges each of `children` surfaces through its parent,
/// the parent's kind looked up in `es`.
pub open spec fn synth_all(es: Seq<EntityView>, acc: Seq<EdgeView>, children: Seq<EntityView>) -> Seq<EdgeView>
    decreases children.len(),
{
    if children.len() == 0 {
        acc
    } else {
        let before = synth_all(es, acc, children.drop_last());
        let c = children.last();
        match c.parent_id {
            None => before,
            Some(p) => match lookup_view(es, p) {
                None => before,
                Some(pe) => synth_rels(before, p, c, synthesized(pe.kind, c.kind)),
            },
        }
    }
}

/// An entity re-parented under the manifest's target for its id, if the
/// manifest maps it.
pub open spec fn reparented(e: EntityView, m: Manifest) -> EntityView {
    match m.spec_parent_of(e.id) {
        Some(p) => EntityView { parent_id: Some(p), ..e },
        None => e,
    }
}

/// Every entity re-parented under the manifest.
pub open spec fn reparent(es: Seq<EntityView>, m: Manifest) -> Seq<EntityView> {
    Seq::new(es.len(), |i: int| reparented(es[i], m))
}

/// The entities after applying a non-empty manifest: the declared skeleton
/// upserted (declared wins on id), then every entity re-parented.
pub open spec fn manifest_entities(es: Seq<EntityView>, m: Manifest) -> Seq<EntityView> {
    reparent(upsert_all(es, declared_seq(m)), m)
}

/// The entities of a sequence of snapshots folded in order, later snapshots
/// winning on id collision.
pub open spec fn merged_entities(snaps: Seq<ProviderSnapshot>) -> Seq<EntityView>
    decreases snaps.len(),
{
    if snaps.len() == 0 {
        Seq::empty()
    } else {
        upsert_all(merged_entities(snaps.drop_last()), entity_views(snaps.last().entities@))
    }
}

/// The relationship edges of a sequence of snapshots, concatenated in order.
pub open spec fn merged_edges(snaps: Seq<ProviderSnapshot>) -> Seq<EdgeView>
    decreases snaps.len(),
{
    if snaps.len() == 0 {
        Seq::empty()
    } else {
        merged_edges(snaps.drop_last()) + edge_views(snaps.last().relationships@)
    }
}

/// The fault lists of a sequence of snapshots, keyed by entity id, later
/// snapshots winning on key collision.
pub open spec fn merged_faults(snaps: Seq<ProviderSnapshot>) -> Map<Seq<char>, Seq<FaultSummary>>
    decreases snaps.len(),
{
    if snaps.len() == 0 {
        Map::empty()
    } else {
        insert_all(merged_faults(snaps.drop_last()), snaps.last().faults@)
    }
}

/// The data trees of a sequence of snapshots, keyed by entity id, later
/// snapshots winning on key collision.
pub open spec fn merged_data(snaps: Seq<ProviderSnapshot>) -> Map<Seq<char>, Value>
    decreases snaps.len(),
{
    if snaps.len() == 0 {
        Map::empty()
    } else {
        inserted_all(merged_data(snaps.drop_last()), snaps.last().data@)
    }
}

/// Fold nested `(entity, (code, environment))` entries into a nested map: the
/// entries under one entity extend what the map holds for it, later entries
/// winning on a repeated code.
pub open spec fn env_fold(
    m: Map<Seq<char>, Map<Seq<char>, EnvironmentData<Value>>>,
    es: Seq<(String, Vec<(String, EnvironmentData<Value>)>)>,
) -> Map<Seq<char>, Map<Seq<char>, EnvironmentData<Value>>>
    decreases es.len(),
{
    if es.len() == 0 {
        m
    } else {
        let m1 = env_fold(m, es.drop_last());
        m1.insert(es.last().0@, inserted_all(envs_under(m1, es.last().0@), es.last().1@))
    }
}

/// The captured environments of a sequence of snapshots, folded in order.
pub open spec fn merged_envs(snaps: Seq<ProviderSnapshot>) -> Map<Seq<char>, Map<Seq<char>, EnvironmentData<Value>>>
    decreases snaps.len(),
{
    if snaps.len() == 0 {
        Map::empty()
    } else {
        env_fold(merged_envs(snaps.drop_last()), snaps.last().fault_environments@)
    }
}

/// Fold nested environment entries into a sorted nested list, consuming them.
fn fold_environments(
    outer: &mut Vec<(String, Vec<(String, EnvironmentData<Value>)>)>,
    items: Vec<(String, Vec<(String, EnvironmentData<Value>)>)>,
)
    requires
        envs_sorted(old(outer)@),
    ensures
        envs_sorted(final(outer)@),
        env_map(final(outer)@) == env_fold(env_map(old(outer)@), items@),
{
    let ghost start = env_map(outer@);
    let ghost all = items@;
    let n = items.len();
    let mut rest = reversed(items);
    let mut i: usize = 0;
    proof {
        assert(all.take(0) =~= Seq::<(String, Vec<(String, EnvironmentData<Value>)>)>::empty());
        assert(rest@ =~= all.subrange(0, n as int).reverse());
    }
    while i < n
        invariant
            n == all.len(),
            i <= n,
            rest@ == all.subrange(i as int, n as int).reverse(),
            envs_sorted(outer@),
            env_map(outer@) == env_fold(start, all.take(i as int)),
        decreases n - i,
    {
        let ghost rv0 = rest@;
        proof {
            assert(rv0.len() == n - i);
        }
        let e = rest.pop().unwrap();
        proof {
            assert(e == all[i as int]);
            assert(rest@ =~= rv0.drop_last());
            assert forall|k: int| 0 <= k < n - i - 1 implies #[trigger] rest@[k] == all.subrange(
                i + 1,
                n as int,
            ).reverse()[k] by {
                assert(rv0[k] == all.subrange(i as int, n as int)[n - i - 1 - k]);
            }
            assert(rest@ =~= all.subrange(i + 1, n as int).reverse());
            assert(all.take(i + 1).drop_last() =~= all.take(i as int));
        }
        let (k, v) = e;
        extend_environments(outer, k, v);
        i = i + 1;
    }
    proof {
        assert(all.take(n as int) =~= all);
    }
}

/// The non-empty segments of a `/`-separated topic path, in order.
pub open spec fn path_segments(s: Seq<char>) -> Seq<Seq<char>> {
    split_segments(s, Seq::empty())
}

/// The segments of `s`, the first of them continuing the partial segment
/// `cur`, empty segments dropped.
pub open spec fn split_segments(s: Seq<char>, cur: Seq<char>) -> Seq<Seq<char>>
    decreases s.len(),
{
    if s.len() == 0 {
        if cur.len() > 0 {
            seq![cur]
        } else {
            Seq::empty()
        }
    } else if s[0] == '/' {
        (if cur.len() > 0 {
            seq![cur]
        } else {
            Seq::empty()
        }) + split_segments(s.skip(1), Seq::empty())
    } else {
        split_segments(s.skip(1), cur.push(s[0]))
    }
}

/// The non-empty segments of a `/`-separated topic path, in order.
pub fn topic_segments(path: &str) -> (r: Vec<String>)
    ensures
        r@.map_values(|x: String| x@) == path_segments(path@),
{
    let ghost s = path@;
    let n = path.unicode_len();
    let mut out: Vec<String> = Vec::new();
    let mut cur = String::new();
    let mut i: usize = 0;
    proof {
        assert(s.skip(0) =~= s);
        assert(out@.map_values(|x: String| x@) =~= Seq::<Seq<char>>::empty());
    }
    while i < n
        invariant
            n == s.len(),
            s == path@,
            i <= n,
            out@.map_values(|x: String| x@) + split_segments(s.skip(i as int), cur@) == path_segments(s),
        decreases n - i,
    {
        let c = path.get_char(i);
        let ghost rest = s.skip(i as int);
        proof {
            assert(rest[0] == c);
            assert(rest.skip(1) =~= s.skip(i + 1));
        }
        if c == '/' {
            if cur.unicode_len() > 0 {
                let ghost before = out@;
                let done = cur;
                cur = String::new();
                let ghost dv = done@;
                out.push(done);
                proof {
                    assert(out@.map_values(|x: String| x@) =~= before.map_values(|x: String| x@) + seq![dv]);
                    assert(cur@ =~= Seq::<char>::empty());
                }
            } else {
                proof {
                    assert(cur@ =~= Seq::<char>::empty());
                }
            }
        } else {
            push_char(&mut cur, c);
        }
        i = i + 1;
    }
    proof {
        assert(s.skip(n as int).len() == 0);
    }
    if cur.unicode_len() > 0 {
        let ghost before = out@;
        let ghost cv = cur@;
        out.push(cur);
        proof {
            assert(out@.map_values(|x: String| x@) =~= before.map_values(|x: String| x@) + seq![cv]);
        }
    }
    proof {
        assert(out@.map_values(|x: String| x@) =~= path_segments(s));
    }
    out
}

/// The member `key` of the JSON value `value` (`serde_json::Value::get` with a
/// string key): `None` when the value is no object or has no such member.
pub uninterp spec fn json_get(value: Value, key: Seq<char>) -> Option<Value>;

/// The member `key` of a JSON object, cloned (`serde_json::Value::get`, then
/// the derived `Clone`, which copies the member as it is).
#[verifier::external_body]
fn json_member(value: &Value, key: &str) -> (r: Option<Value>)
    ensures
        r == json_get(*value, key@),
{
    value.get(key).cloned()
}

/// The value the path `segments` reaches from `v`, member by member; `None`
/// as soon as a segment names no member.
pub open spec fn drill(v: Value, segments: Seq<Seq<char>>) -> Option<Value>
    decreases segments.len(),
{
    if segments.len() == 0 {
        Some(v)
    } else {
        match json_get(v, segments[0]) {
            Some(w) => drill(w, segments.drop_first()),
            None => None,
        }
    }
}

/// The data tree of entity `id`: what is stored for it, else the empty object.
pub open spec fn data_root(data: Map<Seq<char>, Value>, id: Seq<char>) -> Value {
    if data.contains_key(id) {
        data[id]
    } else {
        json_object_of(Seq::empty())
    }
}

/// Folds provider snapshots and the grouping manifest into one [`MergedView`].
#[derive(Clone, Debug)]
pub struct MergePipeline {
    snapshots: Vec<ProviderSnapshot>,
    manifest: Option<Manifest>,
}

impl MergePipeline {
    /// The snapshots to merge, in order.
    pub closed spec fn spec_snapshots(&self) -> Seq<ProviderSnapshot> {
        self.snapshots@
    }

    /// The manifest to apply, if any.
    pub closed spec fn spec_manifest(&self) -> Option<Manifest> {
        self.manifest
    }

    /// An empty pipeline.
    pub fn new() -> (r: MergePipeline)
        ensures
            r.spec_snapshots() == Seq::<ProviderSnapshot>::empty(),
            r.spec_manifest() is None,
    {
        MergePipeline { snapshots: Vec::new(), manifest: None }
    }

    /// Add a snapshot to be merged; later snapshots win on id collision.
    pub fn with_snapshot(self, snapshot: ProviderSnapshot) -> (r: MergePipeline)
        ensures
            r.spec_snapshots() == self.spec_snapshots().push(snapshot),
            r.spec_manifest() == self.spec_manifest(),
    {
        let mut p = self;
        p.snapshots.push(snapshot);
        p
    }

    /// Apply a grouping manifest when folding; an empty manifest is a no-op.
    pub fn with_manifest(self, manifest: Manifest) -> (r: MergePipeline)
        ensures
            r.spec_snapshots() == self.spec_snapshots(),
            r.spec_manifest() == Some(manifest),
    {
        let mut p = self;
        p.manifest = Some(manifest);
        p
    }

    /// Fold the snapshots, and the manifest if it is non-empty, into the merged
    /// read-model.
    pub fn merge(self) -> (r: MergedView)
        ensures
            match self.spec_manifest() {
                Some(m) if !m.spec_is_empty() => {
                    let es = manifest_entities(merged_entities(self.spec_snapshots()), m);
                    &&& r.spec_entities() == es
                    &&& r.spec_edges() == synth_all(es, merged_edges(self.spec_snapshots()), es)
                },
                _ => {
                    &&& r.spec_entities() == merged_entities(self.spec_snapshots())
                    &&& r.spec_edges() == merged_edges(self.spec_snapshots())
                },
            },
            r.spec_faults() == merged_faults(self.spec_snapshots()),
            r.spec_data() == merged_data(self.spec_snapshots()),
            r.spec_environments() == merged_envs(self.spec_snapshots()),
    {
        let ghost snaps = self.snapshots@;
        let mut entities: Vec<Entity> = Vec::new();
        let mut relationships: Vec<RelationshipEdge> = Vec::new();
        let mut faults: Vec<(String, Vec<FaultSummary>)> = Vec::new();
        let mut data: Vec<(String, Value)> = Vec::new();
        let mut fault_environments: Vec<(String, Vec<(String, EnvironmentData<Value>)>)> = Vec::new();
        let mut rest = reversed(self.snapshots);
        let n = rest.len();
        let mut i: usize = 0;
        proof {
            assert(snaps.take(0) =~= Seq::<ProviderSnapshot>::empty());
            assert(edge_views(relationships@) =~= Seq::<EdgeView>::empty());
            assert(entries_map(faults@) =~= Map::<Seq<char>, Seq<FaultSummary>>::empty());
            assert(sorted_map(data@) =~= Map::<Seq<char>, Value>::empty());
            assert(env_map(fault_environments@) =~= Map::<Seq<char>, Map<Seq<char>, EnvironmentData<Value>>>::empty());
        }
        while i < n
            invariant
                n == snaps.len(),
                i <= n,
                rest@ == snaps.subrange(i as int, n as int).reverse(),
                entity_views(entities@) == merged_entities(snaps.take(i as int)),
                unique_ids(entity_views(entities@)),
                edge_views(relationships@) == merged_edges(snaps.take(i as int)),
                keys_sorted(faults@),
                entries_map(faults@) == merged_faults(snaps.take(i as int)),
                crate::sorted::keys_sorted(data@),
                sorted_map(data@) == merged_data(snaps.take(i as int)),
                envs_sorted(fault_environments@),
                env_map(fault_environments@) == merged_envs(snaps.take(i as int)),
            decreases n - i,
        {
            let ghost rv0 = rest@;
            let snap = match rest.pop() {
                Some(x) => x,
                None => {
                    return MergedView { entities, relationships, faults, fault_environments, data };
                },
            };
            proof {
                assert(snap == snaps[i as int]);
                assert(rest@ =~= rv0.drop_last());
                assert forall|k: int| 0 <= k < n - i - 1 implies #[trigger] rest@[k] == snaps.subrange(
                    i + 1,
                    n as int,
                ).reverse()[k] by {
                    assert(rv0[k] == snaps.subrange(i as int, n as int)[n - i - 1 - k]);
                }
                assert(rest@ =~= snaps.subrange(i + 1, n as int).reverse());
                assert(snaps.take(i + 1).drop_last() =~= snaps.take(i as int));
                assert(snaps.take(i + 1).last() == snap);
                lemma_upsert_all_unique(entity_views(entities@), entity_views(snap.entities@));
            }
            let ProviderSnapshot {
                entities: snap_entities,
                relationships: snap_edges,
                faults: snap_faults,
                fault_environments: snap_envs,
                data: snap_data,
            } = snap;
            upsert_each(&mut entities, snap_entities);
            let ghost e0 = relationships@;
            let mut more = snap_edges;
            relationships.append(&mut more);
            proof {
                assert(edge_views(relationships@) =~= edge_views(e0) + edge_views(snap.relationships@));
            }
            insert_each(&mut faults, snap_faults);
            insert_each_sorted(&mut data, snap_data);
            fold_environments(&mut fault_environments, snap_envs);
            i = i + 1;
        }
        proof {
            assert(snaps.take(n as int) =~= snaps);
        }
        match self.manifest {
            Some(m) => {
                if !m.is_empty() {
                    apply_manifest(&mut entities, &mut relationships, &m);
                }
            },
            None => {},
        }
        MergedView { entities, relationships, faults, fault_environments, data }
    }
}

/// Apply a non-empty grouping manifest to the folded read-model in place: upsert
/// the declared skeleton, re-parent the raw entities, and synthesize the
/// relationship edges that surface the declared structure, skipping any edge
/// already present.
fn apply_manifest(entities: &mut Vec<Entity>, relationships: &mut Vec<RelationshipEdge>, manifest: &Manifest)
    requires
        unique_ids(entity_views(old(entities)@)),
    ensures
        entity_views(final(entities)@) == manifest_entities(entity_views(old(entities)@), *manifest),
        edge_views(final(relationships)@) == synth_all(
            entity_views(final(entities)@),
            edge_views(old(relationships)@),
            entity_views(final(entities)@),
        ),
        unique_ids(entity_views(final(entities)@)),
{
    let declared = manifest.declared_entities();
    let ghost base = entity_views(entities@);
    upsert_each(entities, declared);
    proof {
        lemma_upsert_all_unique(base, declared_seq(*manifest));
    }
    let ghost upserted = entity_views(entities@);
    let n = entities.len();
    let mut i: usize = 0;
    while i < n
        invariant
            n == entities@.len(),
            n == upserted.len(),
            i <= n,
            forall|k: int| 0 <= k < i ==> #[trigger] entity_views(entities@)[k] == reparented(upserted[k], *manifest),
            forall|k: int| i <= k < n ==> #[trigger] entity_views(entities@)[k] == upserted[k],
        decreases n - i,
    {
        let ghost start = entities@;
        proof {
            assert(entity_views(entities@)[i as int] == upserted[i as int]);
        }
        let target = match manifest.parent_of(entities[i].id.as_str()) {
            Some(p) => Some(owned(p)),
            None => None,
        };
        match target {
            Some(p) => {
                let mut e = entities[i].duplicate();
                e.parent_id = Some(p);
                let ghost before = entities@;
                entities.set(i, e);
                proof {
                    assert forall|k: int| 0 <= k < n && k != i implies entity_views(entities@)[k]
                        == entity_views(before)[k] by {
                        assert(entities@[k] == before[k]);
                    }
                    assert(entity_views(entities@)[i as int] == reparented(upserted[i as int], *manifest));
                }
            },
            None => {
                assert(entity_views(entities@)[i as int] == reparented(upserted[i as int], *manifest));
            },
        }
        proof {
            assert forall|k: int| 0 <= k < n && k != i implies #[trigger] entity_views(entities@)[k]
                == entity_views(start)[k] by {
                assert(entities@[k] == start[k]);
            }
            assert forall|k: int| 0 <= k < i + 1 implies #[trigger] entity_views(entities@)[k]
                == reparented(upserted[k], *manifest) by {
                if k < i {
                    assert(entity_views(start)[k] == reparented(upserted[k], *manifest));
                }
            }
            assert forall|k: int| i + 1 <= k < n implies #[trigger] entity_views(entities@)[k]
                == upserted[k] by {
                assert(entity_views(start)[k] == upserted[k]);
            }
        }
        i = i + 1;
    }
    proof {
        assert(entity_views(entities@) =~= reparent(upserted, *manifest));
        assert forall|a: int, b: int|
            0 <= a < n && 0 <= b < n && a != b implies entity_views(entities@)[a].id != entity_views(entities@)[b].id by {
            assert(entity_views(entities@)[a].id == upserted[a].id);
            assert(entity_views(entities@)[b].id == upserted[b].id);
        }
    }
    let ghost final_es = entity_views(entities@);
    let ghost start_edges = edge_views(relationships@);
    let mut c: usize = 0;
    proof {
        assert(final_es.take(0) =~= Seq::<EntityView>::empty());
    }
    while c < n
        invariant
            n == entities@.len(),
            final_es == entity_views(entities@),
            c <= n,
            edge_views(relationships@) == synth_all(final_es, start_edges, final_es.take(c as int)),
        decreases n - c,
    {
        let ghost before = edge_views(relationships@);
        proof {
            assert(final_es.take(c + 1).drop_last() =~= final_es.take(c as int));
            assert(final_es.take(c + 1).last() == final_es[c as int]);
        }
        match &entities[c].parent_id {
            None => {},
            Some(p) => {
                match entity_position(entities, p.as_str()) {
                    None => {},
                    Some(pi) => {
                        let rels = synthesized_relations(entities[pi].kind, entities[c].kind);
                        synth_child(relationships, p.as_str(), &entities[c], &rels);
                    },
                }
            },
        }
        c = c + 1;
    }
    proof {
        assert(final_es.take(n as int) =~= final_es);
    }
}

/// Append, for each of `rels` in order, the edge `from -rel-> child` unless an
/// edge with the same parent, relation and item id is already present.
fn synth_child(edges: &mut Vec<RelationshipEdge>, from: &str, child: &Entity, rels: &Vec<Relation>)
    ensures
        edge_views(final(edges)@) == synth_rels(edge_views(old(edges)@), from@, child@, rels@),
{
    let ghost start = edge_views(edges@);
    let mut r: usize = 0;
    proof {
        assert(rels@.take(0) =~= Seq::<Relation>::empty());
    }
    while r < rels.len()
        invariant
            r <= rels@.len(),
            edge_views(edges@) == synth_rels(start, from@, child@, rels@.take(r as int)),
        decreases rels@.len() - r,
    {
        let rel = rels[r];
        proof {
            assert(rels@.take(r + 1).drop_last() =~= rels@.take(r as int));
            assert(rels@.take(r + 1).last() == rel);
        }
        if !has_edge(edges, from, rel, child.id.as_str()) {
            let ghost before = edges@;
            edges.push(RelationshipEdge { from_id: owned(from), relation: rel, item: rel_item(child) });
            proof {
                assert(edge_views(edges@) =~= edge_views(before).push(
                    EdgeView { from_id: from@, relation: rel, item: rel_item_view(child@) },
                ));
            }
        }
        r = r + 1;
    }
    proof {
        assert(rels@.take(rels@.len() as int) =~= rels@);
    }
}

/// Whether some edge links `from` to `item_id` by `rel`.
fn has_edge(edges: &Vec<RelationshipEdge>, from: &str, rel: Relation, item_id: &str) -> (r: bool)
    ensures
        r == has_triple(edge_views(edges@), from@, rel, item_id@),
{
    let ghost ev = edge_views(edges@);
    let mut i: usize = 0;
    while i < edges.len()
        invariant
            ev == edge_views(edges@),
            i <= edges@.len(),
            forall|k: int| 0 <= k < i ==> !(ev[k].from_id == from@ && ev[k].relation == rel && ev[k].item.id == item_id@),
        decreases edges@.len() - i,
    {
        let e = &edges[i];
        if e.relation == rel && str_eq(e.from_id.as_str(), from) && str_eq(e.item.id.as_str(), item_id) {
            proof {
                assert(ev[i as int] == EdgeView { relation: rel, ..ev[i as int] });
            }
            return true;
        }
        i = i + 1;
    }
    false
}

/// A consistent, indexed read-model the resolvers serve from: entities with
/// distinct ids, relationship edges, and fault lists keyed by entity id in
/// increasing key order.
#[derive(Debug)]
pub struct MergedView {
    entities: Vec<Entity>,
    relationships: Vec<RelationshipEdge>,
    faults: Vec<(String, Vec<FaultSummary>)>,
    fault_environments: Vec<(String, Vec<(String, EnvironmentData<Value>)>)>,
    data: Vec<(String, Value)>,
}

/// The entities of one kind, in order.
pub open spec fn of_kind(es: Seq<EntityView>, kind: EntityKind) -> Seq<EntityView>
    decreases es.len(),
{
    if es.len() == 0 {
        es
    } else if es.last().kind == kind {
        of_kind(es.drop_last(), kind).push(es.last())
    } else {
        of_kind(es.drop_last(), kind)
    }
}

/// The items of the edges from `id` by `rel`, in order.
pub open spec fn related(edges: Seq<EdgeView>, id: Seq<char>, rel: Relation) -> Seq<EntityView>
    decreases edges.len(),
{
    if edges.len() == 0 {
        Seq::empty()
    } else if edges.last().from_id == id && edges.last().relation == rel {
        related(edges.drop_last(), id, rel).push(edges.last().item)
    } else {
        related(edges.drop_last(), id, rel)
    }
}

/// The ROS 2 node names of the apps the edges say `id` hosts, in order.
pub open spec fn hosted_nodes(edges: Seq<EdgeView>, id: Seq<char>) -> Seq<Seq<char>>
    decreases edges.len(),
{
    if edges.len() == 0 {
        Seq::empty()
    } else {
        let before = hosted_nodes(edges.drop_last(), id);
        let e = edges.last();
        if e.from_id == id && e.relation == Relation::Hosts && e.item.x_medkit is Some
            && e.item.x_medkit->0.ros2 is Some {
            before.push(e.item.x_medkit->0.ros2->0)
        } else {
            before
        }
    }
}

/// The faults passing a status filter, in order.
pub open spec fn status_filtered(fs: Seq<FaultSummary>, f: FaultStatusFilter) -> Seq<FaultSummary>
    decreases fs.len(),
{
    if fs.len() == 0 {
        fs
    } else if filter_passes(f, fs.last().status@) {
        status_filtered(fs.drop_last(), f).push(fs.last())
    } else {
        status_filtered(fs.drop_last(), f)
    }
}

/// The faults with the first occurrence of each fault code kept, in order.
pub open spec fn first_per_code(fs: Seq<FaultSummary>) -> Seq<FaultSummary>
    decreases fs.len(),
{
    if fs.len() == 0 {
        fs
    } else {
        let before = first_per_code(fs.drop_last());
        if exists|i: int| 0 <= i < before.len() && #[trigger] before[i].fault_code@ == fs.last().fault_code@ {
            before
        } else {
            before.push(fs.last())
        }
    }
}

/// Every entry's faults, concatenated in entry order.
pub open spec fn all_faults(entries: Seq<(String, Vec<FaultSummary>)>) -> Seq<FaultSummary>
    decreases entries.len(),
{
    if entries.len() == 0 {
        Seq::empty()
    } else {
        all_faults(entries.drop_last()) + entries.last().1@
    }
}

/// A list count as the contract's `u32`, saturating.
pub open spec fn saturating_count(n: nat) -> u32 {
    if n <= u32::MAX {
        n as u32
    } else {
        u32::MAX
    }
}

fn count_of<T>(items: &Vec<T>) -> (r: u32)
    ensures
        r == saturating_count(items@.len()),
{
    if items.len() <= 4294967295 {
        items.len() as u32
    } else {
        4294967295
    }
}

impl MergedView {
    /// The fault lists keep their keys in increasing order and entity ids are
    /// distinct.
    #[verifier::type_invariant]
    closed spec fn inv(&self) -> bool {
        &&& keys_sorted(self.faults@)
        &&& unique_ids(entity_views(self.entities@))
        &&& crate::sorted::keys_sorted(self.data@)
        &&& envs_sorted(self.fault_environments@)
    }

    /// The readable data trees keyed by entity id.
    pub closed spec fn spec_data(&self) -> Map<Seq<char>, Value> {
        sorted_map(self.data@)
    }

    /// The captured environments keyed by entity id, then fault code.
    pub closed spec fn spec_environments(&self) -> Map<Seq<char>, Map<Seq<char>, EnvironmentData<Value>>> {
        env_map(self.fault_environments@)
    }

    /// The fault lists as `(entity id, faults)` entries, in increasing id order.
    pub closed spec fn spec_fault_entries(&self) -> Seq<(String, Vec<FaultSummary>)> {
        self.faults@
    }

    /// The faults scoped to an entity id (none when it has no list).
    pub open spec fn spec_faults_of(&self, id: Seq<char>) -> Seq<FaultSummary> {
        if self.spec_faults().contains_key(id) {
            self.spec_faults()[id]
        } else {
            Seq::empty()
        }
    }

    /// Whether an entity of `kind` has id `id`.
    pub open spec fn spec_has(&self, kind: EntityKind, id: Seq<char>) -> bool {
        lookup_view(self.spec_entities(), id) matches Some(e) && e.kind == kind
    }

    /// The entities, in presentation order.
    pub closed spec fn spec_entities(&self) -> Seq<EntityView> {
        entity_views(self.entities@)
    }

    /// The relationship edges, in order.
    pub closed spec fn spec_edges(&self) -> Seq<EdgeView> {
        edge_views(self.relationships@)
    }

    /// The fault lists keyed by entity id.
    pub closed spec fn spec_faults(&self) -> Map<Seq<char>, Seq<FaultSummary>> {
        entries_map(self.faults@)
    }
}

impl MergedView {
    /// Build a view from a single snapshot.
    pub fn from_snapshot(snapshot: ProviderSnapshot) -> (r: MergedView)
        ensures
            r.spec_entities() == merged_entities(seq![snapshot]),
            r.spec_edges() == merged_edges(seq![snapshot]),
            r.spec_faults() == merged_faults(seq![snapshot]),
    {
        let p = MergePipeline::new().with_snapshot(snapshot);
        proof {
            assert(p.spec_snapshots() =~= seq![snapshot]);
        }
        p.merge()
    }

    /// Build a view from a single snapshot, applying a grouping `manifest` when
    /// one is given; a `None` or empty manifest gives the flat grouping.
    pub fn from_snapshot_with_manifest(snapshot: ProviderSnapshot, manifest: Option<Manifest>) -> (r: MergedView)
        ensures
            match manifest {
                Some(m) if !m.spec_is_empty() => {
                    let es = manifest_entities(merged_entities(seq![snapshot]), m);
                    &&& r.spec_entities() == es
                    &&& r.spec_edges() == synth_all(es, merged_edges(seq![snapshot]), es)
                },
                _ => {
                    &&& r.spec_entities() == merged_entities(seq![snapshot])
                    &&& r.spec_edges() == merged_edges(seq![snapshot])
                },
            },
            r.spec_faults() == merged_faults(seq![snapshot]),
    {
        let mut p = MergePipeline::new().with_snapshot(snapshot);
        match manifest {
            Some(m) => {
                p = p.with_manifest(m);
            },
            None => {},
        }
        proof {
            assert(p.spec_snapshots() =~= seq![snapshot]);
        }
        p.merge()
    }

    /// Look up an entity by id.
    pub fn entity(&self, id: &str) -> (r: Option<&Entity>)
        ensures
            match r {
                Some(e) => lookup_view(self.spec_entities(), id@) == Some(e@),
                None => lookup_view(self.spec_entities(), id@) is None,
            },
    {
        match entity_position(&self.entities, id) {
            Some(i) => Some(&self.entities[i]),
            None => None,
        }
    }

    /// Require an entity of the given `kind`, or the `entity-not-found` error.
    pub fn require(&self, kind: EntityKind, id: &str) -> (r: Result<&Entity, ResolveError>)
        ensures
            r is Ok <==> self.spec_has(kind, id@),
            r matches Ok(e) ==> lookup_view(self.spec_entities(), id@) == Some(e@),
            r matches Err(err) ==> is_not_found(err, "entity-not-found"@, "Entity not found"@, "entity_id"@, id@),
    {
        match self.entity(id) {
            Some(e) => {
                if e.kind == kind {
                    Ok(e)
                } else {
                    Err(ResolveError::entity_not_found(id))
                }
            },
            None => Err(ResolveError::entity_not_found(id)),
        }
    }

    /// The top-level collection of entities of a kind (`/areas`, `/apps`, ...),
    /// with no `_links`.
    pub fn list(&self, kind: EntityKind) -> (r: Collection<Entity>)
        ensures
            entity_views(r.items@) == of_kind(self.spec_entities(), kind),
            r.links is None,
            r.x_medkit.total_count == r.items@.len(),
            unique_ids(self.spec_entities()),
    {
        proof {
            use_type_invariant(self);
        }
        let ghost es = entity_views(self.entities@);
        let mut items: Vec<Entity> = Vec::new();
        let mut i: usize = 0;
        proof {
            assert(es.take(0) =~= Seq::<EntityView>::empty());
        }
        while i < self.entities.len()
            invariant
                es == entity_views(self.entities@),
                i <= self.entities@.len(),
                entity_views(items@) == of_kind(es.take(i as int), kind),
            decreases self.entities@.len() - i,
        {
            proof {
                assert(es.take(i + 1).drop_last() =~= es.take(i as int));
                assert(es.take(i + 1).last() == self.entities@[i as int]@);
            }
            if self.entities[i].kind == kind {
                let ghost before = items@;
                items.push(self.entities[i].duplicate());
                proof {
                    assert(entity_views(items@) =~= entity_views(before).push(self.entities@[i as int]@));
                }
            }
            i = i + 1;
        }
        proof {
            assert(es.take(self.entities@.len() as int) =~= es);
        }
        Collection::new(items)
    }

    /// A relationship sub-resource (`.../hosts`, `.../is-located-on`, ...): the
    /// items of the edges from `id` by `relation`, with the `_links` map of a
    /// back-link (keyed by the kind's type singular, or `parent` for
    /// subcomponents) and a `self` link, in key order.
    pub fn relationship(&self, kind: EntityKind, id: &str, relation: Relation) -> (r: Result<Collection<Entity>, ResolveError>)
        ensures
            r is Ok <==> self.spec_has(kind, id@),
            r matches Err(err) ==> is_not_found(err, "entity-not-found"@, "Entity not found"@, "entity_id"@, id@),
            r matches Ok(c) ==> {
                &&& entity_views(c.items@) == related(self.spec_edges(), id@, relation)
                &&& c.x_medkit.total_count == c.items@.len()
                &&& c.links matches Some(links) && links@.len() == 2
                    && links@[0].0@ == (if relation == Relation::Subcomponents { "parent"@ } else { kind_singular(kind) })
                    && links@[0].1@ == "/api/v1/"@ + kind_collection(kind) + "/"@ + id@
                    && links@[1].0@ == "self"@
                    && links@[1].1@ == "/api/v1/"@ + kind_collection(kind) + "/"@ + id@ + "/"@ + relation_segment(relation)
            },
    {
        match self.require(kind, id) {
            Err(e) => {
                return Err(e);
            },
            Ok(_) => {},
        }
        let ghost ev = edge_views(self.relationships@);
        let mut items: Vec<Entity> = Vec::new();
        let mut i: usize = 0;
        proof {
            assert(ev.take(0) =~= Seq::<EdgeView>::empty());
        }
        while i < self.relationships.len()
            invariant
                ev == edge_views(self.relationships@),
                i <= self.relationships@.len(),
                entity_views(items@) == related(ev.take(i as int), id@, relation),
            decreases self.relationships@.len() - i,
        {
            proof {
                assert(ev.take(i + 1).drop_last() =~= ev.take(i as int));
                assert(ev.take(i + 1).last() == self.relationships@[i as int]@);
            }
            let edge = &self.relationships[i];
            if edge.relation == relation && str_eq(edge.from_id.as_str(), id) {
                let ghost before = items@;
                items.push(edge.item.duplicate());
                proof {
                    assert(entity_views(items@) =~= entity_views(before).push(edge.item@));
                }
            }
            i = i + 1;
        }
        proof {
            assert(ev.take(self.relationships@.len() as int) =~= ev);
        }
        let collection = collection_segment(kind);
        let mut base = owned("/api/v1/");
        append_str(&mut base, collection);
        append_str(&mut base, "/");
        append_str(&mut base, id);
        let mut self_link = owned(base.as_str());
        append_str(&mut self_link, "/");
        append_str(&mut self_link, relation.segment());
        let back_key = if relation == Relation::Subcomponents {
            "parent"
        } else {
            type_singular(kind)
        };
        let mut links: Vec<(String, String)> = Vec::new();
        links.push((owned(back_key), base));
        links.push((owned("self"), self_link));
        let total_count = items.len();
        Ok(Collection { items, links: Some(links), x_medkit: CollectionMeta { total_count } })
    }

    /// The faults of `id` passing `filter`, copied, in order.
    fn filtered_faults_of(&self, id: &str, filter: FaultStatusFilter) -> (r: Vec<FaultSummary>)
        ensures
            same_faults(r@, status_filtered(self.spec_faults_of(id@), filter)),
    {
        proof {
            use_type_invariant(self);
        }
        match crate::assoc::assoc_position(&self.faults, id) {
            Some(p) => {
                proof {
                    lemma_entries_map_at(self.faults@, p as int);
                }
                filter_faults(&self.faults[p].1, filter)
            },
            None => {
                proof {
                    if self.spec_faults().contains_key(id@) {
                        let k = choose|k: int| 0 <= k < self.faults@.len() && #[trigger] self.faults@[k].0@ == id@;
                    }
                    assert(status_filtered(Seq::<FaultSummary>::empty(), filter) =~= Seq::<FaultSummary>::empty());
                }
                Vec::new()
            },
        }
    }

    /// The global fault list (`GET /faults`): every fault in entity-id order,
    /// filtered by status, keeping the first occurrence of each fault code.
    pub fn global_faults(&self, filter: FaultStatusFilter) -> (r: FaultList)
        ensures
            same_faults(r.items@, first_per_code(status_filtered(all_faults(self.spec_fault_entries()), filter))),
            r.x_medkit.count == saturating_count(r.items@.len()),
            r.x_medkit.muted_count == Some(0u32),
            r.x_medkit.cluster_count == Some(0u32),
            r.x_medkit.entity_id is None,
            r.x_medkit.source_id is None,
            r.x_medkit.aggregated is None,
            r.x_medkit.aggregation_level is None,
            r.x_medkit.aggregation_sources is None,
            r.x_medkit.app_count is None,
    {
        let ghost es = self.faults@;
        let mut all: Vec<FaultSummary> = Vec::new();
        let mut i: usize = 0;
        proof {
            assert(es.take(0) =~= Seq::<(String, Vec<FaultSummary>)>::empty());
        }
        while i < self.faults.len()
            invariant
                es == self.faults@,
                i <= es.len(),
                same_faults(all@, all_faults(es.take(i as int))),
            decreases es.len() - i,
        {
            proof {
                assert(es.take(i + 1).drop_last() =~= es.take(i as int));
            }
            let ghost before = all@;
            let more = copy_faults(&self.faults[i].1);
            let mut more_mut = more;
            all.append(&mut more_mut);
            proof {
                let target = all_faults(es.take(i + 1));
                assert(target == all_faults(es.take(i as int)) + es[i as int].1@);
                assert forall|k: int| 0 <= k < all@.len() implies #[trigger] same_fault(all@[k], target[k]) by {
                    if k < before.len() {
                        assert(all@[k] == before[k]);
                        assert(same_fault(before[k], all_faults(es.take(i as int))[k]));
                    } else {
                        assert(all@[k] == more@[k - before.len()]);
                        assert(same_fault(more@[k - before.len()], es[i as int].1@[k - before.len()]));
                    }
                }
            }
            i = i + 1;
        }
        proof {
            assert(es.take(es.len() as int) =~= es);
        }
        let filtered = filter_faults(&all, filter);
        proof {
            lemma_status_filtered_same(all@, all_faults(es), filter);
            lemma_same_faults_trans(filtered@, status_filtered(all@, filter), status_filtered(all_faults(es), filter));
        }
        let items = dedup_codes(&filtered);
        proof {
            lemma_first_per_code_same(filtered@, status_filtered(all_faults(es), filter));
            lemma_same_faults_trans(items@, first_per_code(filtered@), first_per_code(status_filtered(all_faults(es), filter)));
        }
        let count = count_of(&items);
        FaultList {
            items,
            x_medkit: FaultListMeta {
                count,
                muted_count: Some(0),
                cluster_count: Some(0),
                entity_id: None,
                source_id: None,
                aggregated: None,
                aggregation_level: None,
                aggregation_sources: None,
                app_count: None,
            },
        }
    }

    /// The ROS 2 node names of the apps a component hosts, for fault
    /// aggregation.
    pub fn aggregation_sources(&self, component_id: &str) -> (r: Vec<String>)
        ensures
            r@.map_values(|s: String| s@) == hosted_nodes(self.spec_edges(), component_id@),
    {
        let ghost ev = edge_views(self.relationships@);
        let mut out: Vec<String> = Vec::new();
        let mut i: usize = 0;
        proof {
            assert(ev.take(0) =~= Seq::<EdgeView>::empty());
            assert(out@.map_values(|s: String| s@) =~= Seq::<Seq<char>>::empty());
        }
        while i < self.relationships.len()
            invariant
                ev == edge_views(self.relationships@),
                i <= ev.len(),
                out@.map_values(|s: String| s@) == hosted_nodes(ev.take(i as int), component_id@),
            decreases ev.len() - i,
        {
            proof {
                assert(ev.take(i + 1).drop_last() =~= ev.take(i as int));
                assert(ev.take(i + 1).last() == self.relationships@[i as int]@);
            }
            let edge = &self.relationships[i];
            if edge.relation == Relation::Hosts && str_eq(edge.from_id.as_str(), component_id) {
                match &edge.item.x_medkit {
                    Some(m) => {
                        match &m.ros2 {
                            Some(r) => {
                                let ghost before = out@;
                                out.push(r.node.clone());
                                proof {
                                    assert(out@.map_values(|s: String| s@) =~= before.map_values(|s: String| s@).push(r.node@));
                                }
                            },
                            None => {},
                        }
                    },
                    None => {},
                }
            }
            i = i + 1;
        }
        proof {
            assert(ev.take(ev.len() as int) =~= ev);
        }
        out
    }

    /// An entity-scoped fault list (`.../{id}/faults`). A component aggregates
    /// over the apps it hosts and carries the `aggregation_*` extension keys;
    /// other kinds carry the app-scoped `entity_id` / `source_id` keys.
    pub fn entity_faults(&self, kind: EntityKind, id: &str, filter: FaultStatusFilter) -> (r: Result<FaultList, ResolveError>)
        ensures
            r is Ok <==> self.spec_has(kind, id@),
            r matches Err(err) ==> is_not_found(err, "entity-not-found"@, "Entity not found"@, "entity_id"@, id@),
            r matches Ok(list) ==> {
                let meta = list.x_medkit;
                &&& same_faults(list.items@, status_filtered(self.spec_faults_of(id@), filter))
                &&& meta.count == saturating_count(list.items@.len())
                &&& opt_view(meta.entity_id) == Some(id@)
                &&& if kind == EntityKind::Component {
                    &&& meta.aggregated == Some(true)
                    &&& opt_view(meta.aggregation_level) == Some("component"@)
                    &&& meta.aggregation_sources matches Some(srcs)
                        && srcs@.map_values(|s: String| s@) == hosted_nodes(self.spec_edges(), id@)
                        && meta.app_count == Some(saturating_count(srcs@.len()))
                    &&& meta.muted_count is None
                    &&& meta.cluster_count is None
                    &&& meta.source_id is None
                } else {
                    &&& meta.muted_count == Some(0u32)
                    &&& meta.cluster_count == Some(0u32)
                    &&& opt_view(meta.source_id) == match lookup_view(self.spec_entities(), id@) {
                        Some(e) => match e.x_medkit {
                            Some(m) => m.ros2,
                            None => None,
                        },
                        None => None,
                    }
                    &&& meta.aggregated is None
                    &&& meta.aggregation_level is None
                    &&& meta.aggregation_sources is None
                    &&& meta.app_count is None
                }
            },
    {
        let entity = match self.require(kind, id) {
            Err(e) => {
                return Err(e);
            },
            Ok(e) => e,
        };
        let items = self.filtered_faults_of(id, filter);
        let count = count_of(&items);
        let x_medkit = if kind == EntityKind::Component {
            let sources = self.aggregation_sources(id);
            let app_count = count_of(&sources);
            FaultListMeta {
                count,
                muted_count: None,
                cluster_count: None,
                entity_id: Some(owned(id)),
                source_id: None,
                aggregated: Some(true),
                aggregation_level: Some(owned("component")),
                aggregation_sources: Some(sources),
                app_count: Some(app_count),
            }
        } else {
            let source_id = match &entity.x_medkit {
                Some(m) => match &m.ros2 {
                    Some(r) => Some(r.node.clone()),
                    None => None,
                },
                None => None,
            };
            FaultListMeta {
                count,
                muted_count: Some(0),
                cluster_count: Some(0),
                entity_id: Some(owned(id)),
                source_id,
                aggregated: None,
                aggregation_level: None,
                aggregation_sources: None,
                app_count: None,
            }
        };
        Ok(FaultList { items, x_medkit })
    }

    /// Readable data under an entity (`.../{id}/data[/{topic_path}]`): with no
    /// topic path, or one without segments, the entity's whole data tree (an
    /// empty object if it exposes none); else the value the path's segments
    /// reach, member by member.
    pub fn data(&self, kind: EntityKind, id: &str, topic_path: Option<&str>) -> (r: Result<Value, ResolveError>)
        ensures
            !self.spec_has(kind, id@) ==> (r matches Err(err) && is_not_found(
                err,
                "entity-not-found"@,
                "Entity not found"@,
                "entity_id"@,
                id@,
            )),
            self.spec_has(kind, id@) && topic_path is None ==> r == Ok::<Value, ResolveError>(
                data_root(self.spec_data(), id@),
            ),
            self.spec_has(kind, id@) && topic_path is Some ==> match drill(
                data_root(self.spec_data(), id@),
                path_segments(topic_path->0@),
            ) {
                Some(v) => r == Ok::<Value, ResolveError>(v),
                None => r matches Err(err) && is_not_found(
                    err,
                    "data-not-found"@,
                    "Data resource not found"@,
                    "data_id"@,
                    topic_path->0@,
                ),
            },
    {
        proof {
            use_type_invariant(self);
        }
        match self.require(kind, id) {
            Err(e) => {
                return Err(e);
            },
            Ok(_) => {},
        }
        let root = match crate::sorted::sorted_position(&self.data, id) {
            Some(i) => copy_value(&self.data[i].1),
            None => json_object(Vec::new()),
        };
        proof {
            assert(members_view(Seq::<(String, Value)>::empty()) =~= Seq::<(Seq<char>, Value)>::empty());
        }
        match topic_path {
            None => Ok(root),
            Some(path) => {
                let segments = topic_segments(path);
                let ghost segs = path_segments(path@);
                let mut cursor = root;
                let mut k: usize = 0;
                proof {
                    assert(segs.skip(0) =~= segs);
                }
                while k < segments.len()
                    invariant
                        k <= segments@.len(),
                        segs.len() == segments@.len(),
                        segs == path_segments(path@),
                        self.spec_has(kind, id@),
                        topic_path == Some(path),
                        segments@.map_values(|x: String| x@) == segs,
                        drill(data_root(self.spec_data(), id@), segs) == drill(cursor, segs.skip(k as int)),
                    decreases segments@.len() - k,
                {
                    proof {
                        assert(segs[k as int] == segments@[k as int]@);
                        assert(segs.skip(k as int)[0] == segs[k as int]);
                        assert(segs.skip(k as int).drop_first() =~= segs.skip(k + 1));
                    }
                    match json_member(&cursor, segments[k].as_str()) {
                        Some(v) => {
                            cursor = v;
                        },
                        None => {
                            proof {
                                assert(json_get(cursor, segs.skip(k as int)[0]) is None);
                                assert(drill(cursor, segs.skip(k as int)) is None);
                            }
                            return Err(ResolveError::data_not_found(path));
                        },
                    }
                    k = k + 1;
                }
                proof {
                    assert(segs.skip(k as int).len() == 0);
                }
                proof {
                    assert(segments@.map_values(|x: String| x@).len() == segments@.len());
                }
                Ok(cursor)
            },
        }
    }

    /// A copy of the freeze-frame environment captured for fault `fault_code`
    /// on entity `id`, if any.
    pub fn fault_environment(&self, id: &str, fault_code: &str) -> (r: Option<EnvironmentData<Value>>)
        ensures
            match r {
                Some(e) => holds_environment(self.spec_environments(), id@, fault_code@) && same_env(
                    e,
                    self.spec_environments()[id@][fault_code@],
                ),
                None => !holds_environment(self.spec_environments(), id@, fault_code@),
            },
    {
        find_environment(&self.fault_environments, id, fault_code)
    }

    /// The detail of fault `fault_code` on entity `id` of `kind`: the
    /// occurrence-only detail of its summary, with the first and last
    /// occurrence rendered by `timestamp`; when an environment was captured
    /// for the fault, that environment replaces the occurrence-only one.
    pub fn fault_detail<F: Fn(u64) -> String>(&self, kind: EntityKind, id: &str, fault_code: &str, timestamp: F) -> (r:
        Result<FaultDetail<Value>, ResolveError>)
        requires
            forall|t: u64| call_requires(timestamp, (t,)),
        ensures
            !self.spec_has(kind, id@) ==> (r matches Err(err) && is_not_found(
                err,
                "entity-not-found"@,
                "Entity not found"@,
                "entity_id"@,
                id@,
            )),
            self.spec_has(kind, id@) ==> match first_with_code(self.spec_faults_of(id@), fault_code@) {
                Some(f) => r is Ok && exists|first: String, last: String|
                    call_ensures(timestamp, (f.first_occurred,), first) && call_ensures(
                        timestamp,
                        (f.last_occurred,),
                        last,
                    ) && #[trigger] detail_with_environment(
                        r->Ok_0,
                        f,
                        first@,
                        last@,
                        self.spec_environments(),
                        id@,
                        fault_code@,
                    ),
                None => (r matches Err(err) && is_not_found(
                    err,
                    "fault-not-found"@,
                    "Fault not found"@,
                    "fault_code"@,
                    fault_code@,
                )),
            },
    {
        let summary = match self.fault_summary(kind, id, fault_code) {
            Err(e) => {
                return Err(e);
            },
            Ok(s) => s,
        };
        let first = timestamp(summary.first_occurred);
        let last = timestamp(summary.last_occurred);
        let ghost fv = first;
        let ghost lv = last;
        let mut detail: FaultDetail<Value> = detail_from_summary(&summary, first, last);
        let ghost plain = detail;
        match self.fault_environment(id, fault_code) {
            Some(env) => {
                detail.environment_data = env;
            },
            None => {},
        }
        proof {
            let f = first_with_code(self.spec_faults_of(id@), fault_code@)->0;
            assert(same_fault(summary, f));
            assert(call_ensures(timestamp, (f.first_occurred,), fv));
            assert(call_ensures(timestamp, (f.last_occurred,), lv));
            assert(item_of(plain, f));
            assert(item_of(detail, f));
            assert(detail_with_environment(detail, f, fv@, lv@, self.spec_environments(), id@, fault_code@));
            assert(exists|first: String, last: String|
                call_ensures(timestamp, (f.first_occurred,), first) && call_ensures(timestamp, (f.last_occurred,), last)
                    && #[trigger] detail_with_environment(
                    detail,
                    f,
                    first@,
                    last@,
                    self.spec_environments(),
                    id@,
                    fault_code@,
                ));
            let result = Ok::<FaultDetail<Value>, ResolveError>(detail);
            assert(result->Ok_0 == detail);
            assert(first_with_code(self.spec_faults_of(id@), fault_code@) == Some(f));
        }
        Ok(detail)
    }

    /// The fault summary with code `fault_code` scoped to entity `id` of
    /// `kind`: the first such in the entity's list.
    pub fn fault_summary(&self, kind: EntityKind, id: &str, fault_code: &str) -> (r: Result<FaultSummary, ResolveError>)
        ensures
            !self.spec_has(kind, id@) ==> (r matches Err(err) && is_not_found(err, "entity-not-found"@, "Entity not found"@, "entity_id"@, id@)),
            self.spec_has(kind, id@) ==> match first_with_code(self.spec_faults_of(id@), fault_code@) {
                Some(f) => (r matches Ok(s) && same_fault(s, f)),
                None => (r matches Err(err) && is_not_found(err, "fault-not-found"@, "Fault not found"@, "fault_code"@, fault_code@)),
            },
    {
        match self.require(kind, id) {
            Err(e) => {
                return Err(e);
            },
            Ok(_) => {},
        }
        let all = self.filtered_faults_of(id, FaultStatusFilter::All);
        proof {
            lemma_status_filtered_all(self.spec_faults_of(id@));
        }
        let mut i: usize = 0;
        proof {
            assert(self.spec_faults_of(id@).skip(0) =~= self.spec_faults_of(id@));
        }
        while i < all.len()
            invariant
                self.spec_has(kind, id@),
                i <= all@.len(),
                same_faults(all@, self.spec_faults_of(id@)),
                first_with_code(self.spec_faults_of(id@), fault_code@) == first_with_code(
                    self.spec_faults_of(id@).skip(i as int),
                    fault_code@,
                ),
            decreases all@.len() - i,
        {
            let ghost rest = self.spec_faults_of(id@).skip(i as int);
            proof {
                assert(same_fault(all@[i as int], self.spec_faults_of(id@)[i as int]));
                assert(rest[0] == self.spec_faults_of(id@)[i as int]);
                assert(rest.skip(1) =~= self.spec_faults_of(id@).skip(i + 1));
            }
            if str_eq(all[i].fault_code.as_str(), fault_code) {
                return Ok(all[i].duplicate());
            }
            i = i + 1;
        }
        proof {
            assert(self.spec_faults_of(id@).skip(i as int).len() == 0);
        }
        Err(ResolveError::fault_not_found(fault_code))
    }

    /// Acknowledge a fault deletion (`DELETE .../{id}/faults/{fault_code}`): the
    /// view is read-only, so this only checks that the fault exists.
    pub fn delete_fault(&self, kind: EntityKind, id: &str, fault_code: &str) -> (r: Result<(), ResolveError>)
        ensures
            r is Ok <==> self.spec_has(kind, id@) && first_with_code(self.spec_faults_of(id@), fault_code@) is Some,
            !self.spec_has(kind, id@) ==> (r matches Err(err) && is_not_found(err, "entity-not-found"@, "Entity not found"@, "entity_id"@, id@)),
            self.spec_has(kind, id@) && first_with_code(self.spec_faults_of(id@), fault_code@) is None
                ==> (r matches Err(err) && is_not_found(err, "fault-not-found"@, "Fault not found"@, "fault_code"@, fault_code@)),
    {
        match self.fault_summary(kind, id, fault_code) {
            Ok(_) => Ok(()),
            Err(e) => Err(e),
        }
    }
}

/// The first fault with code `code`, if any.
pub open spec fn first_with_code(fs: Seq<FaultSummary>, code: Seq<char>) -> Option<FaultSummary>
    decreases fs.len(),
{
    if fs.len() == 0 {
        None
    } else if fs[0].fault_code@ == code {
        Some(fs[0])
    } else {
        first_with_code(fs.skip(1), code)
    }
}

/// Filtering by [`FaultStatusFilter::All`] keeps every fault.
pub(crate) proof fn lemma_status_filtered_all(fs: Seq<FaultSummary>)
    ensures
        status_filtered(fs, FaultStatusFilter::All) == fs,
    decreases fs.len(),
{
    if fs.len() > 0 {
        lemma_status_filtered_all(fs.drop_last());
        assert(fs.drop_last().push(fs.last()) =~= fs);
    }
}

/// `same_faults` is transitive.
proof fn lemma_same_faults_trans(a: Seq<FaultSummary>, b: Seq<FaultSummary>, c: Seq<FaultSummary>)
    requires
        same_faults(a, b),
        same_faults(b, c),
    ensures
        same_faults(a, c),
{
    assert forall|i: int| 0 <= i < a.len() implies #[trigger] same_fault(a[i], c[i]) by {
        assert(same_fault(a[i], b[i]));
        assert(same_fault(b[i], c[i]));
    }
}

/// Filtering field-equal fault sequences gives field-equal results.
proof fn lemma_status_filtered_same(a: Seq<FaultSummary>, b: Seq<FaultSummary>, f: FaultStatusFilter)
    requires
        same_faults(a, b),
    ensures
        same_faults(status_filtered(a, f), status_filtered(b, f)),
    decreases a.len(),
{
    if a.len() > 0 {
        assert(same_fault(a[a.len() - 1], b[b.len() - 1]));
        assert forall|i: int| 0 <= i < a.drop_last().len() implies #[trigger] same_fault(a.drop_last()[i], b.drop_last()[i]) by {
            assert(same_fault(a[i], b[i]));
        }
        lemma_status_filtered_same(a.drop_last(), b.drop_last(), f);
        let fa = status_filtered(a.drop_last(), f);
        let fb = status_filtered(b.drop_last(), f);
        if filter_passes(f, a.last().status@) {
            assert forall|i: int| 0 <= i < fa.len() + 1 implies #[trigger] same_fault(fa.push(a.last())[i], fb.push(b.last())[i]) by {
                if i < fa.len() {
                    assert(same_fault(fa[i], fb[i]));
                }
            }
        }
    }
}

/// Keeping the first fault per code of field-equal sequences gives field-equal
/// results.
proof fn lemma_first_per_code_same(a: Seq<FaultSummary>, b: Seq<FaultSummary>)
    requires
        same_faults(a, b),
    ensures
        same_faults(first_per_code(a), first_per_code(b)),
    decreases a.len(),
{
    if a.len() > 0 {
        assert(same_fault(a[a.len() - 1], b[b.len() - 1]));
        assert forall|i: int| 0 <= i < a.drop_last().len() implies #[trigger] same_fault(a.drop_last()[i], b.drop_last()[i]) by {
            assert(same_fault(a[i], b[i]));
        }
        lemma_first_per_code_same(a.drop_last(), b.drop_last());
        let da = first_per_code(a.drop_last());
        let db = first_per_code(b.drop_last());
        let ca = exists|i: int| 0 <= i < da.len() && #[trigger] da[i].fault_code@ == a.last().fault_code@;
        let cb = exists|i: int| 0 <= i < db.len() && #[trigger] db[i].fault_code@ == b.last().fault_code@;
        if ca {
            let i = choose|i: int| 0 <= i < da.len() && #[trigger] da[i].fault_code@ == a.last().fault_code@;
            assert(same_fault(da[i], db[i]));
            assert(db[i].fault_code@ == b.last().fault_code@);
        }
        if cb {
            let i = choose|i: int| 0 <= i < db.len() && #[trigger] db[i].fault_code@ == b.last().fault_code@;
            assert(same_fault(da[i], db[i]));
            assert(da[i].fault_code@ == a.last().fault_code@);
        }
        if !ca {
            assert forall|i: int| 0 <= i < da.len() + 1 implies #[trigger] same_fault(da.push(a.last())[i], db.push(b.last())[i]) by {
                if i < da.len() {
                    assert(same_fault(da[i], db[i]));
                }
            }
        }
    }
}

/// The faults passing a status filter, copied, in order.
fn filter_faults(fs: &Vec<FaultSummary>, filter: FaultStatusFilter) -> (r: Vec<FaultSummary>)
    ensures
        same_faults(r@, status_filtered(fs@, filter)),
{
    let mut out: Vec<FaultSummary> = Vec::new();
    let mut i: usize = 0;
    proof {
        assert(fs@.take(0) =~= Seq::<FaultSummary>::empty());
    }
    while i < fs.len()
        invariant
            i <= fs@.len(),
            same_faults(out@, status_filtered(fs@.take(i as int), filter)),
        decreases fs@.len() - i,
    {
        proof {
            assert(fs@.take(i + 1).drop_last() =~= fs@.take(i as int));
            assert(fs@.take(i + 1).last() == fs@[i as int]);
        }
        if filter.matches(fs[i].status.as_str()) {
            let ghost before = out@;
            out.push(fs[i].duplicate());
            proof {
                let prev = status_filtered(fs@.take(i as int), filter);
                assert forall|k: int| 0 <= k < out@.len() implies #[trigger] same_fault(out@[k], prev.push(fs@[i as int])[k]) by {
                    if k < before.len() {
                        assert(same_fault(before[k], prev[k]));
                    }
                }
            }
        }
        i = i + 1;
    }
    proof {
        assert(fs@.take(fs@.len() as int) =~= fs@);
    }
    out
}

/// The faults with the first occurrence of each fault code kept, copied, in
/// order.
fn dedup_codes(fs: &Vec<FaultSummary>) -> (r: Vec<FaultSummary>)
    ensures
        same_faults(r@, first_per_code(fs@)),
{
    let mut out: Vec<FaultSummary> = Vec::new();
    let mut i: usize = 0;
    proof {
        assert(fs@.take(0) =~= Seq::<FaultSummary>::empty());
    }
    while i < fs.len()
        invariant
            i <= fs@.len(),
            same_faults(out@, first_per_code(fs@.take(i as int))),
        decreases fs@.len() - i,
    {
        proof {
            assert(fs@.take(i + 1).drop_last() =~= fs@.take(i as int));
            assert(fs@.take(i + 1).last() == fs@[i as int]);
        }
        let ghost prev = first_per_code(fs@.take(i as int));
        let mut seen = false;
        let mut k: usize = 0;
        while k < out.len()
            invariant
                i < fs@.len(),
                k <= out@.len(),
                same_faults(out@, prev),
                seen <==> exists|m: int| 0 <= m < k && #[trigger] prev[m].fault_code@ == fs@[i as int].fault_code@,
            decreases out@.len() - k,
        {
            proof {
                assert(same_fault(out@[k as int], prev[k as int]));
            }
            if str_eq(out[k].fault_code.as_str(), fs[i].fault_code.as_str()) {
                seen = true;
            }
            k = k + 1;
        }
        if !seen {
            let ghost before = out@;
            out.push(fs[i].duplicate());
            proof {
                assert forall|m: int| 0 <= m < out@.len() implies #[trigger] same_fault(out@[m], prev.push(fs@[i as int])[m]) by {
                    if m < before.len() {
                        assert(same_fault(before[m], prev[m]));
                    }
                }
            }
        }
        i = i + 1;
    }
    proof {
        assert(fs@.take(fs@.len() as int) =~= fs@);
    }
    out
}

/// The UDS-style flag string of a boolean: `"1"` or `"0"`.
pub open spec fn flag01(b: bool) -> Seq<char> {
    if b {
        "1"@
    } else {
        "0"@
    }
}

/// The UDS-style flag string of a boolean: `"1"` or `"0"`.
pub fn bool01(value: bool) -> (r: String)
    ensures
        r@ == flag01(value),
{
    if value {
        owned("1")
    } else {
        owned("0")
    }
}

/// Whether `d` is the occurrence-only fault detail of `summary`: the DTC item
/// with its status flags derived from the raw lifecycle status (confirmed,
/// pending = pre-failed or pending, test failed = either), the given
/// occurrence timestamps, no snapshots, and the summary's bookkeeping.
pub open spec fn is_detail_of<D>(d: FaultDetail<D>, summary: FaultSummary, first: Seq<char>, last: Seq<char>) -> bool {
    &&& d.environment_data.extended_data_records.first_occurrence@ == first
    &&& d.environment_data.extended_data_records.last_occurrence@ == last
    &&& d.environment_data.snapshots@.len() == 0
    &&& item_of(d, summary)
}

/// The DTC item and the extension of detail `d` derive from `summary`.
pub open spec fn item_of<D>(d: FaultDetail<D>, summary: FaultSummary) -> bool {
    let confirmed = summary.status@ == "CONFIRMED"@;
    let pending = summary.status@ == "PREFAILED"@ || summary.status@ == "PENDING"@;
    &&& d.item.code@ == summary.fault_code@
    &&& d.item.fault_name@ == summary.description@
    &&& d.item.severity == summary.severity
    &&& d.item.status.aggregated_status@ == (if confirmed { "active"@ } else { "pending"@ })
    &&& d.item.status.test_failed@ == flag01(confirmed || pending)
    &&& d.item.status.confirmed_dtc@ == flag01(confirmed)
    &&& d.item.status.pending_dtc@ == flag01(pending)
    &&& d.x_medkit.occurrence_count == summary.occurrence_count
    &&& d.x_medkit.reporting_sources@ == summary.reporting_sources@
    &&& d.x_medkit.severity_label@ == summary.severity_label@
    &&& d.x_medkit.status_raw@ == summary.status@
}

/// `d` is the detail of summary `f` on entity `id`: the occurrence-only
/// detail with the given first and last occurrence when no environment was
/// captured for the fault; else the captured environment, with the item and
/// extension derived from the summary.
pub open spec fn detail_with_environment(
    d: FaultDetail<Value>,
    f: FaultSummary,
    first: Seq<char>,
    last: Seq<char>,
    envs: Map<Seq<char>, Map<Seq<char>, EnvironmentData<Value>>>,
    id: Seq<char>,
    code: Seq<char>,
) -> bool {
    if holds_environment(envs, id, code) {
        same_env(d.environment_data, envs[id][code]) && item_of(d, f)
    } else {
        is_detail_of(d, f, first, last)
    }
}

/// The occurrence-only fault detail of a summary, with its first and last
/// occurrence already rendered as ISO-8601 timestamps.
pub fn detail_from_summary<D>(summary: &FaultSummary, first_occurrence: String, last_occurrence: String) -> (r: FaultDetail<D>)
    ensures
        is_detail_of(r, *summary, first_occurrence@, last_occurrence@),
{
    let status = summary.status.as_str();
    let confirmed = str_eq(status, "CONFIRMED");
    let pending = str_eq(status, "PREFAILED") || str_eq(status, "PENDING");
    FaultDetail {
        environment_data: EnvironmentData {
            extended_data_records: ExtendedDataRecords { first_occurrence, last_occurrence },
            snapshots: Vec::new(),
        },
        item: FaultItem {
            code: summary.fault_code.clone(),
            fault_name: summary.description.clone(),
            severity: summary.severity,
            status: DtcStatus {
                aggregated_status: if confirmed { owned("active") } else { owned("pending") },
                test_failed: bool01(confirmed || pending),
                confirmed_dtc: bool01(confirmed),
                pending_dtc: bool01(pending),
            },
        },
        x_medkit: FaultDetailMeta {
            occurrence_count: summary.occurrence_count,
            reporting_sources: summary.reporting_sources.clone(),
            severity_label: summary.severity_label.clone(),
            status_raw: summary.status.clone(),
        },
    }
}

/// Each status filter but `All` passes exactly the raw statuses it names
/// (`Cleared` only `CLEARED`, `Healed` only `HEALED`, `Confirmed` only
/// `CONFIRMED`, `Pending` only `PREFAILED` and `PENDING`), so no status
/// passes two different such filters; `All` passes every status.
pub proof fn law_status_filters_name_their_statuses(status: Seq<char>, f: FaultStatusFilter, g: FaultStatusFilter)
    ensures
        filter_passes(FaultStatusFilter::All, status),
        filter_passes(FaultStatusFilter::Cleared, status) <==> status == "CLEARED"@,
        filter_passes(FaultStatusFilter::Healed, status) <==> status == "HEALED"@,
        filter_passes(FaultStatusFilter::Confirmed, status) <==> status == "CONFIRMED"@,
        filter_passes(FaultStatusFilter::Pending, status) <==> (status == "PREFAILED"@ || status == "PENDING"@),
        f != FaultStatusFilter::All && g != FaultStatusFilter::All && f != g && filter_passes(f, status)
            ==> !filter_passes(g, status),
{
    reveal_strlit("CLEARED");
    reveal_strlit("HEALED");
    reveal_strlit("CONFIRMED");
    reveal_strlit("PREFAILED");
    reveal_strlit("PENDING");
    assert("CLEARED"@ != "PENDING"@) by {
        assert("CLEARED"@[0] != "PENDING"@[0]);
    }
    assert("CONFIRMED"@ != "PREFAILED"@) by {
        assert("CONFIRMED"@[0] != "PREFAILED"@[0]);
    }
    assert("CLEARED"@.len() == 7 && "HEALED"@.len() == 6 && "CONFIRMED"@.len() == 9 && "PREFAILED"@.len() == 9
        && "PENDING"@.len() == 7);
}

/// In every fault detail the DTC flags are `"0"` or `"1"` and agree with the
/// raw status: `confirmed_dtc` is set exactly for a `CONFIRMED` fault,
/// `pending_dtc` exactly for a `PREFAILED` or `PENDING` one, and `test_failed`
/// exactly when either of the two is set (a pending fault has failed its
/// test too).
pub proof fn law_failed_test_is_confirmed_or_pending<D>(d: FaultDetail<D>, summary: FaultSummary)
    requires
        item_of(d, summary),
    ensures
        d.item.status.test_failed@ == "1"@ <==> (d.item.status.confirmed_dtc@ == "1"@ || d.item.status.pending_dtc@
            == "1"@),
        d.item.status.test_failed@ == "1"@ || d.item.status.test_failed@ == "0"@,
        d.item.status.confirmed_dtc@ == "1"@ <==> summary.status@ == "CONFIRMED"@,
        d.item.status.pending_dtc@ == "1"@ <==> (summary.status@ == "PREFAILED"@ || summary.status@ == "PENDING"@),
{
    reveal_strlit("1");
    reveal_strlit("0");
    assert("1"@ != "0"@) by {
        assert("1"@[0] != "0"@[0]);
    }
}

} // verus!
