//! The data-source seam the gateway reads through: the [`Provider`] trait, the
//! typed entity relationships, and the in-memory [`MockProvider`]; plus the
//! value types of the write seam (targets, operations, execution states and
//! action failures).

use vstd::prelude::*;
use crate::assoc::{assoc_lookup, assoc_position, lemma_lookup_push, lemma_lookup_update};
use crate::model::{
    copy_entities, copy_faults, same_fault, same_faults, Entity, EntityKind, EntityView, EnvironmentData,
    ExtendedDataRecords, FaultSummary, FreezeFrame, FreezeFrameMeta, Health, Severity, health_rank, worst_of,
    severity_of_wire,
};
use crate::action::copy_value;
use serde_json::Value;
use crate::text::{owned, seq_less, str_eq};
use crate::sorted::{
    has_key, insert_each_sorted, insert_sorted, inserted_all, keys_sorted, lemma_sorted_map_at, remove_sorted, sorted_map,
    sorted_position,
};

verus! {

/// A typed relationship between two entities, as exposed under relationship
/// sub-resources (`.../hosts`, `.../depends-on`, ...).
#[derive(Clone, Copy, Debug, PartialEq, Eq, Hash, Structural)]
pub enum Relation {
    /// An area's directly-contained children (`/contains`).
    Contains,
    /// The components grouped under an area (`/components`).
    Components,
    /// The subcomponents of a component (`/subcomponents`).
    Subcomponents,
    /// The apps a component or function hosts (`/hosts`).
    Hosts,
    /// The entities this one depends on (`/depends-on`).
    DependsOn,
    /// The component an app is located on (`/is-located-on`).
    IsLocatedOn,
    /// The function an app belongs to (`/belongs-to`).
    BelongsTo,
}

/// The URL path segment that names a relation.
pub open spec fn relation_segment(r: Relation) -> Seq<char> {
    match r {
        Relation::Contains => "contains"@,
        Relation::Components => "components"@,
        Relation::Subcomponents => "subcomponents"@,
        Relation::Hosts => "hosts"@,
        Relation::DependsOn => "depends-on"@,
        Relation::IsLocatedOn => "is-located-on"@,
        Relation::BelongsTo => "belongs-to"@,
    }
}

impl Relation {
    /// Every relation, in declaration order, for exhaustive route registration.
    pub fn all() -> (r: [Relation; 7])
        ensures
            r@ == seq![
                Relation::Contains,
                Relation::Components,
                Relation::Subcomponents,
                Relation::Hosts,
                Relation::DependsOn,
                Relation::IsLocatedOn,
                Relation::BelongsTo,
            ],
    {
        [
            Relation::Contains,
            Relation::Components,
            Relation::Subcomponents,
            Relation::Hosts,
            Relation::DependsOn,
            Relation::IsLocatedOn,
            Relation::BelongsTo,
        ]
    }

    /// The URL path segment that names this relation (e.g. `is-located-on`).
    pub fn segment(self) -> (r: &'static str)
        ensures
            r@ == relation_segment(self),
    {
        match self {
            Relation::Contains => "contains",
            Relation::Components => "components",
            Relation::Subcomponents => "subcomponents",
            Relation::Hosts => "hosts",
            Relation::DependsOn => "depends-on",
            Relation::IsLocatedOn => "is-located-on",
            Relation::BelongsTo => "belongs-to",
        }
    }

    /// Parse a relation from its wire path segment.
    pub fn from_segment(segment: &str) -> (r: Option<Relation>)
        ensures
            r matches Some(rel) ==> relation_segment(rel) == segment@,
            r is None ==> forall|rel: Relation| relation_segment(rel) != segment@,
    {
        let all = Relation::all();
        let mut i: usize = 0;
        while i < 7
            invariant
                i <= 7,
                all@ == seq![
                    Relation::Contains,
                    Relation::Components,
                    Relation::Subcomponents,
                    Relation::Hosts,
                    Relation::DependsOn,
                    Relation::IsLocatedOn,
                    Relation::BelongsTo,
                ],
                forall|k: int| 0 <= k < i ==> relation_segment(#[trigger] all@[k]) != segment@,
            decreases 7 - i,
        {
            let rel = all[i];
            if str_eq(rel.segment(), segment) {
                return Some(rel);
            }
            i = i + 1;
        }
        proof {
            assert forall|rel: Relation| relation_segment(rel) != segment@ by {
                match rel {
                    Relation::Contains => assert(all@[0] == rel),
                    Relation::Components => assert(all@[1] == rel),
                    Relation::Subcomponents => assert(all@[2] == rel),
                    Relation::Hosts => assert(all@[3] == rel),
                    Relation::DependsOn => assert(all@[4] == rel),
                    Relation::IsLocatedOn => assert(all@[5] == rel),
                    Relation::BelongsTo => assert(all@[6] == rel),
                }
            }
        }
        None
    }
}

/// One directed relationship edge plus the wire-shaped summary item emitted for
/// the target entity under the parent's relationship sub-resource.
#[derive(Clone, Debug, PartialEq, Eq)]
pub struct RelationshipEdge {
    /// The id of the parent entity the relationship hangs off.
    pub from_id: String,
    /// Which relationship this edge realises.
    pub relation: Relation,
    /// The wire-shaped summary item for the related entity.
    pub item: Entity,
}

/// The abstract contents of a [`RelationshipEdge`].
pub struct EdgeView {
    /// The parent entity id.
    pub from_id: Seq<char>,
    /// The relationship.
    pub relation: Relation,
    /// The related entity's item.
    pub item: EntityView,
}

impl View for RelationshipEdge {
    type V = EdgeView;

    open spec fn view(&self) -> EdgeView {
        EdgeView { from_id: self.from_id@, relation: self.relation, item: self.item@ }
    }
}

/// The abstract contents of a sequence of edges.
pub open spec fn edge_views(s: Seq<RelationshipEdge>) -> Seq<EdgeView> {
    s.map_values(|e: RelationshipEdge| e@)
}

impl RelationshipEdge {
    /// A field-for-field copy.
    pub fn duplicate(&self) -> (r: RelationshipEdge)
        ensures
            r == *self,
    {
        RelationshipEdge { from_id: self.from_id.clone(), relation: self.relation, item: self.item.duplicate() }
    }
}

/// A field-for-field copy of a vector of relationship edges.
pub fn copy_edges(v: &Vec<RelationshipEdge>) -> (r: Vec<RelationshipEdge>)
    ensures
        r@ == v@,
{
    let mut out: Vec<RelationshipEdge> = Vec::new();
    let mut i: usize = 0;
    while i < v.len()
        invariant
            i <= v.len(),
            out@ == v@.subrange(0, i as int),
        decreases v.len() - i,
    {
        out.push(v[i].duplicate());
        i = i + 1;
    }
    assert(v@.subrange(0, v.len() as int) == v@);
    out
}

/// The health a fault of this severity implies for the entity carrying it.
pub open spec fn severity_health(s: Severity) -> Health {
    match s {
        Severity::Info => Health::Okay,
        Severity::Warn => Health::Warning,
        Severity::Error => Health::Error,
        Severity::Critical => Health::Critical,
    }
}

/// Map a fault [`Severity`] to the [`Health`] it implies for an entity carrying
/// it.
pub fn severity_to_health(severity: Severity) -> (r: Health)
    ensures
        r == severity_health(severity),
{
    match severity {
        Severity::Info => Health::Okay,
        Severity::Warn => Health::Warning,
        Severity::Error => Health::Error,
        Severity::Critical => Health::Critical,
    }
}

/// The severity-to-health mapping keeps the order: a more severe fault never
/// implies a better health, and distinct severities imply distinct health.
pub proof fn law_severity_health_monotone(a: Severity, b: Severity)
    ensures
        (crate::model::severity_wire(a) <= crate::model::severity_wire(b)) <==> (health_rank(
            severity_health(a),
        ) <= health_rank(severity_health(b))),
        (severity_health(a) == severity_health(b)) <==> (a == b),
{
}

/// The health a fault with this numeric wire severity implies: an unknown
/// wire value implies no degradation.
pub open spec fn fault_health(f: FaultSummary) -> Health {
    match severity_of_wire(f.severity) {
        Some(s) => severity_health(s),
        None => Health::Okay,
    }
}

/// The target SOVD resource a write acts on: an entity kind plus its id.
#[derive(Clone, Debug, PartialEq, Eq)]
pub struct ResourceRef {
    /// The kind of the addressed entity.
    pub kind: EntityKind,
    /// The addressed entity's id.
    pub id: String,
}

impl ResourceRef {
    /// A reference to entity `id` of `kind`.
    pub fn new(kind: EntityKind, id: &str) -> (r: ResourceRef)
        ensures
            r.kind == kind,
            r.id@ == id@,
    {
        ResourceRef { kind, id: owned(id) }
    }
}

/// The lifecycle state of an action execution.
#[derive(Clone, Copy, Debug, PartialEq, Eq, Structural)]
pub enum ExecutionStatus {
    /// Accepted, not yet started.
    Pending,
    /// In progress.
    Running,
    /// Finished successfully.
    Completed,
    /// Finished with an error.
    Failed,
    /// Cancelled before completion.
    Cancelled,
}

/// One operation available on a target, the catalogue entry served under
/// `.../operations`.
#[derive(Clone, Debug, PartialEq, Eq)]
pub struct OperationDef {
    /// The operation id (URL path component).
    pub id: String,
    /// A human-readable name.
    pub name: String,
    /// An optional description.
    pub description: Option<String>,
}

/// A write/action failure, mapped to a contract-shaped error by the gateway.
#[derive(Clone, Debug, PartialEq, Eq)]
pub enum ActionError {
    /// Unknown target, operation, or execution (`404`).
    NotFound,
    /// An illegal transition for the current state (`409`).
    Conflict,
    /// Malformed arguments (`400`), with a human-readable reason.
    BadRequest(String),
}

/// The data-source seam the gateway reads through.
///
/// An implementation describes its contents by three spec functions and its
/// methods return exactly those contents.
pub trait Provider {
    /// Every entity currently known, in presentation order.
    spec fn spec_entities(&self) -> Seq<Entity>;

    /// The active faults reported against an entity.
    spec fn spec_faults(&self, entity_id: Seq<char>) -> Seq<FaultSummary>;

    /// The directly-observed (non-rolled-up) health of an entity.
    spec fn spec_health(&self, entity_id: Seq<char>) -> Health;

    /// Every entity currently known to the diagnostic surface.
    fn entities(&self) -> (r: Vec<Entity>)
        ensures
            r@ == self.spec_entities(),
    ;

    /// The active faults reported against the entity `entity_id`.
    fn faults(&self, entity_id: &str) -> (r: Vec<FaultSummary>)
        ensures
            same_faults(r@, self.spec_faults(entity_id@)),
    ;

    /// The directly-observed health of `entity_id` ([`Health::Okay`] for an
    /// unknown entity); the rollup over descendants is the gateway's job.
    fn health(&self, entity_id: &str) -> (r: Health)
        ensures
            r == self.spec_health(entity_id@),
    ;

    /// The freeze-frame environment captured for fault `fault_code` on
    /// `entity_id`, if the provider captured any; by default none.
    fn fault_environment(&self, entity_id: &str, fault_code: &str) -> (r: Option<EnvironmentData<Value>>)
        default_ensures
            r is None,
    {
        None
    }

    /// A consistent read-model snapshot the gateway serves a request batch
    /// from. By default: the entities and their non-empty fault lists, keyed by
    /// entity id in increasing order, with no relationships, environments or
    /// data.
    fn snapshot(&self) -> (r: ProviderSnapshot)
        ensures
            r.entities@ == self.spec_entities(),
        default_ensures
            r.entities@ == self.spec_entities(),
            r.relationships@.len() == 0,
            r.fault_environments@.len() == 0,
            r.data@.len() == 0,
            keys_sorted(r.faults@),
            forall|id: Seq<char>| #[trigger]
                has_key(r.faults@, id) <==> (exists|i: int|
                    0 <= i < self.spec_entities().len() && #[trigger] self.spec_entities()[i].id@ == id)
                    && self.spec_faults(id).len() > 0,
            forall|i: int| 0 <= i < r.faults@.len() ==> same_faults((#[trigger] r.faults@[i]).1@, self.spec_faults(r.faults@[i].0@)),
    {
        let entities = self.entities();
        let ghost es = self.spec_entities();
        let mut faults: Vec<(String, Vec<FaultSummary>)> = Vec::new();
        let n = entities.len();
        let mut p: usize = 0;
        while p < n
            invariant
                entities@ == es,
                es == self.spec_entities(),
                n == es.len(),
                p <= n,
                keys_sorted(faults@),
                forall|id: Seq<char>| #[trigger]
                    has_key(faults@, id) <==> (exists|k: int| 0 <= k < p && #[trigger] es[k].id@ == id)
                        && self.spec_faults(id).len() > 0,
                forall|i: int| 0 <= i < faults@.len() ==> same_faults((#[trigger] faults@[i]).1@, self.spec_faults(faults@[i].0@)),
            decreases n - p,
        {
            let fs = self.faults(entities[p].id.as_str());
            let ghost id = es[p as int].id@;
            let ghost before = faults@;
            if fs.len() > 0 {
                let ghost fv = fs@;
                insert_sorted(&mut faults, entities[p].id.clone(), fs);
                proof {
                    let after = faults@;
                    assert forall|i: int| 0 <= i < after.len() implies same_faults((#[trigger] after[i]).1@, self.spec_faults(after[i].0@)) by {
                        lemma_sorted_map_at(after, i);
                        let k = after[i].0@;
                        if k != id {
                            let j = choose|j: int| 0 <= j < before.len() && #[trigger] before[j].0@ == k;
                            lemma_sorted_map_at(before, j);
                        }
                    }
                    assert forall|x: Seq<char>| #[trigger] has_key(after, x) <==> (exists|k: int| 0 <= k < p + 1 && #[trigger] es[k].id@ == x)
                        && self.spec_faults(x).len() > 0 by {
                        if has_key(after, x) {
                            let j = choose|j: int| 0 <= j < after.len() && #[trigger] after[j].0@ == x;
                            lemma_sorted_map_at(after, j);
                            if x != id {
                                assert(sorted_map(before).contains_key(x));
                            } else {
                                assert(es[p as int].id@ == x);
                            }
                        }
                        if (exists|k: int| 0 <= k < p + 1 && #[trigger] es[k].id@ == x) && self.spec_faults(x).len() > 0 {
                            if x == id {
                                assert(sorted_map(after).contains_key(x));
                            } else {
                                let k = choose|k: int| 0 <= k < p + 1 && #[trigger] es[k].id@ == x;
                                assert(k != p);
                                assert(has_key(before, x));
                                let j = choose|j: int| 0 <= j < before.len() && #[trigger] before[j].0@ == x;
                                lemma_sorted_map_at(before, j);
                                assert(sorted_map(after).contains_key(x));
                            }
                        }
                    }
                }
            } else {
                proof {
                    assert forall|x: Seq<char>| #[trigger] has_key(faults@, x) <==> (exists|k: int| 0 <= k < p + 1 && #[trigger] es[k].id@ == x)
                        && self.spec_faults(x).len() > 0 by {
                        if (exists|k: int| 0 <= k < p + 1 && #[trigger] es[k].id@ == x) && self.spec_faults(x).len() > 0 {
                            let k = choose|k: int| 0 <= k < p + 1 && #[trigger] es[k].id@ == x;
                            if k == p {
                                assert(x == id);
                            }
                        }
                    }
                }
            }
            p = p + 1;
        }
        ProviderSnapshot { entities, relationships: Vec::new(), faults, fault_environments: Vec::new(), data: Vec::new() }
    }
}

/// A point-in-time read-model: the entities, the relationship edges, the
/// faults keyed by the entity they are scoped to, the captured freeze-frame
/// environments keyed by entity and fault code, and the readable data trees
/// keyed by entity.
#[derive(Clone, Debug)]
pub struct ProviderSnapshot {
    /// Every entity in the tree, in presentation order.
    pub entities: Vec<Entity>,
    /// The relationship edges between entities.
    pub relationships: Vec<RelationshipEdge>,
    /// Faults keyed by the entity id they are scoped to.
    pub faults: Vec<(String, Vec<FaultSummary>)>,
    /// Freeze-frame environment data keyed by entity id, then fault code.
    pub fault_environments: Vec<(String, Vec<(String, EnvironmentData<Value>)>)>,
    /// Readable data trees keyed by entity id (served under `.../data`).
    pub data: Vec<(String, Value)>,
}

/// Two captured environments hold the same records and the same snapshots.
pub open spec fn same_env(a: EnvironmentData<Value>, b: EnvironmentData<Value>) -> bool {
    a.extended_data_records == b.extended_data_records && a.snapshots@ == b.snapshots@
}

/// A copy of a freeze-frame.
fn copy_frame(f: &FreezeFrame<Value>) -> (r: FreezeFrame<Value>)
    ensures
        r == *f,
{
    FreezeFrame {
        data: copy_value(&f.data),
        name: f.name.clone(),
        kind: f.kind.clone(),
        x_medkit: FreezeFrameMeta {
            captured_at: f.x_medkit.captured_at.clone(),
            full_data: copy_value(&f.x_medkit.full_data),
            message_type: f.x_medkit.message_type.clone(),
            topic: f.x_medkit.topic.clone(),
        },
    }
}

/// A copy of a captured environment.
pub fn copy_env(e: &EnvironmentData<Value>) -> (r: EnvironmentData<Value>)
    ensures
        same_env(r, *e),
{
    let mut snapshots: Vec<FreezeFrame<Value>> = Vec::new();
    let mut i: usize = 0;
    while i < e.snapshots.len()
        invariant
            i <= e.snapshots@.len(),
            snapshots@ == e.snapshots@.take(i as int),
        decreases e.snapshots@.len() - i,
    {
        snapshots.push(copy_frame(&e.snapshots[i]));
        i = i + 1;
        proof {
            assert(e.snapshots@.take(i as int) =~= e.snapshots@.take(i - 1).push(e.snapshots@[i - 1]));
        }
    }
    proof {
        assert(e.snapshots@.take(e.snapshots@.len() as int) =~= e.snapshots@);
    }
    EnvironmentData {
        extended_data_records: ExtendedDataRecords {
            first_occurrence: e.extended_data_records.first_occurrence.clone(),
            last_occurrence: e.extended_data_records.last_occurrence.clone(),
        },
        snapshots,
    }
}

/// The environments of a nested `(entity, (code, environment))` list, read as
/// a map from entity id to a map from fault code to environment.
pub open spec fn env_map(es: Seq<(String, Vec<(String, EnvironmentData<Value>)>)>) -> Map<
    Seq<char>,
    Map<Seq<char>, EnvironmentData<Value>>,
> {
    Map::new(|k: Seq<char>| sorted_map(es).contains_key(k), |k: Seq<char>| sorted_map(sorted_map(es)[k]@))
}

/// A nested environment list is sorted at both levels.
pub open spec fn envs_sorted(es: Seq<(String, Vec<(String, EnvironmentData<Value>)>)>) -> bool {
    &&& keys_sorted(es)
    &&& forall|i: int| 0 <= i < es.len() ==> keys_sorted((#[trigger] es[i]).1@)
}

/// Two nested environment lists hold the same keys in the same order, with
/// agreeing environments.
pub open spec fn same_env_entries(
    a: Seq<(String, Vec<(String, EnvironmentData<Value>)>)>,
    b: Seq<(String, Vec<(String, EnvironmentData<Value>)>)>,
) -> bool {
    &&& a.len() == b.len()
    &&& forall|i: int|
        0 <= i < a.len() ==> (#[trigger] a[i]).0@ == b[i].0@ && a[i].1@.len() == b[i].1@.len() && forall|j: int|
            0 <= j < a[i].1@.len() ==> (#[trigger] a[i].1@[j]).0@ == b[i].1@[j].0@ && same_env(a[i].1@[j].1, b[i].1@[j].1)
}

/// A copy of a nested environment list, entry for entry.
fn copy_env_entries(v: &Vec<(String, Vec<(String, EnvironmentData<Value>)>)>) -> (r: Vec<
    (String, Vec<(String, EnvironmentData<Value>)>),
>)
    ensures
        same_env_entries(r@, v@),
{
    let mut out: Vec<(String, Vec<(String, EnvironmentData<Value>)>)> = Vec::new();
    let mut i: usize = 0;
    while i < v.len()
        invariant
            i <= v@.len(),
            same_env_entries(out@, v@.take(i as int)),
        decreases v@.len() - i,
    {
        let inner = &v[i].1;
        let mut copied: Vec<(String, EnvironmentData<Value>)> = Vec::new();
        let mut j: usize = 0;
        while j < inner.len()
            invariant
                j <= inner@.len(),
                copied@.len() == j,
                forall|k: int| 0 <= k < j ==> (#[trigger] copied@[k]).0@ == inner@[k].0@ && same_env(copied@[k].1, inner@[k].1),
            decreases inner@.len() - j,
        {
            copied.push((inner[j].0.clone(), copy_env(&inner[j].1)));
            j = j + 1;
        }
        out.push((v[i].0.clone(), copied));
        proof {
            let t = v@.take(i + 1);
            assert forall|a: int| 0 <= a < i + 1 implies (#[trigger] out@[a]).0@ == t[a].0@ && out@[a].1@.len()
                == t[a].1@.len() && forall|j2: int|
                0 <= j2 < out@[a].1@.len() ==> (#[trigger] out@[a].1@[j2]).0@ == t[a].1@[j2].0@ && same_env(
                    out@[a].1@[j2].1,
                    t[a].1@[j2].1,
                ) by {
                if a < i {
                    assert(v@.take(i as int)[a] == t[a]);
                }
            }
        }
        i = i + 1;
    }
    proof {
        assert(v@.take(v@.len() as int) =~= v@);
    }
    out
}

/// A copy of a data list, entry for entry.
fn copy_data(v: &Vec<(String, Value)>) -> (r: Vec<(String, Value)>)
    ensures
        r@ == v@,
{
    let mut out: Vec<(String, Value)> = Vec::new();
    let mut i: usize = 0;
    while i < v.len()
        invariant
            i <= v@.len(),
            out@ == v@.take(i as int),
        decreases v@.len() - i,
    {
        out.push((v[i].0.clone(), copy_value(&v[i].1)));
        i = i + 1;
        proof {
            assert(v@.take(i as int) =~= v@.take(i - 1).push(v@[i - 1]));
        }
    }
    proof {
        assert(v@.take(v@.len() as int) =~= v@);
    }
    out
}

/// Whether two `(entity id, faults)` entries hold the same key and faults.
pub open spec fn same_entry(a: (String, Vec<FaultSummary>), b: (String, Vec<FaultSummary>)) -> bool {
    a.0@ == b.0@ && same_faults(a.1@, b.1@)
}

/// An in-memory [`Provider`] for tests and the walking skeleton.
#[derive(Clone, Debug)]
pub struct MockProvider {
    entities: Vec<Entity>,
    faults: Vec<(String, Vec<FaultSummary>)>,
    fault_environments: Vec<(String, Vec<(String, EnvironmentData<Value>)>)>,
    health: Vec<(String, Health)>,
    relationships: Vec<RelationshipEdge>,
    data: Vec<(String, Value)>,
}

impl MockProvider {
    /// The relationship edges recorded, in order.
    pub closed spec fn spec_relationships(&self) -> Seq<RelationshipEdge> {
        self.relationships@
    }

    /// The fault lists as `(entity id, faults)` entries, one per entity.
    pub closed spec fn spec_fault_entries(&self) -> Seq<(String, Vec<FaultSummary>)> {
        self.faults@
    }

    /// The readable data trees keyed by entity id.
    pub closed spec fn spec_data(&self) -> Map<Seq<char>, Value> {
        sorted_map(self.data@)
    }

    /// The captured environments keyed by entity id, then fault code.
    pub closed spec fn spec_environments(&self) -> Map<Seq<char>, Map<Seq<char>, EnvironmentData<Value>>> {
        env_map(self.fault_environments@)
    }

    /// The captured environments as nested `(entity, (code, environment))`
    /// entries.
    pub closed spec fn spec_environment_entries(&self) -> Seq<(String, Vec<(String, EnvironmentData<Value>)>)> {
        self.fault_environments@
    }

    /// The data and environment lists are sorted by key.
    pub closed spec fn wf(&self) -> bool {
        keys_sorted(self.data@) && envs_sorted(self.fault_environments@)
    }

    /// An empty mock provider.
    pub fn new() -> (r: MockProvider)
        ensures
            r.spec_entities() == Seq::<Entity>::empty(),
            r.spec_relationships() == Seq::<RelationshipEdge>::empty(),
            forall|id: Seq<char>| #[trigger] r.spec_faults(id) == Seq::<FaultSummary>::empty(),
            forall|id: Seq<char>| #[trigger] r.spec_health(id) == Health::Okay,
            r.spec_data() == Map::<Seq<char>, Value>::empty(),
            r.spec_environments() == Map::<Seq<char>, Map<Seq<char>, EnvironmentData<Value>>>::empty(),
            r.wf(),
    {
        let r = MockProvider {
            entities: Vec::new(),
            faults: Vec::new(),
            fault_environments: Vec::new(),
            health: Vec::new(),
            relationships: Vec::new(),
            data: Vec::new(),
        };
        proof {
            assert(sorted_map(r.data@) =~= Map::<Seq<char>, Value>::empty());
            assert(env_map(r.fault_environments@) =~= Map::<Seq<char>, Map<Seq<char>, EnvironmentData<Value>>>::empty());
        }
        r
    }

    /// Add an entity to the tree.
    pub fn with_entity(self, entity: Entity) -> (r: MockProvider)
        ensures
            r.spec_data() == self.spec_data(),
            r.spec_environments() == self.spec_environments(),
            r.wf() == self.wf(),
            r.spec_entities() == self.spec_entities().push(entity),
            r.spec_relationships() == self.spec_relationships(),
            forall|id: Seq<char>| #[trigger] r.spec_faults(id) == self.spec_faults(id),
            forall|id: Seq<char>| #[trigger] r.spec_health(id) == self.spec_health(id),
    {
        let mut m = self;
        m.entities.push(entity);
        m
    }

    /// Attach a fault to an entity and record its directly-observed health: the
    /// worse of the entity's health so far and the health the fault's severity
    /// implies.
    pub fn with_fault(self, entity_id: &str, fault: FaultSummary) -> (r: MockProvider)
        ensures
            r.spec_data() == self.spec_data(),
            r.spec_environments() == self.spec_environments(),
            r.wf() == self.wf(),
            r.spec_entities() == self.spec_entities(),
            r.spec_relationships() == self.spec_relationships(),
            forall|id: Seq<char>| #[trigger]
                r.spec_faults(id) == if id == entity_id@ {
                    self.spec_faults(id).push(fault)
                } else {
                    self.spec_faults(id)
                },
            forall|id: Seq<char>| #[trigger]
                r.spec_health(id) == if id == entity_id@ {
                    worst_of(self.spec_health(id), fault_health(fault))
                } else {
                    self.spec_health(id)
                },
    {
        let implied = match Severity::from_wire_value(fault.severity) {
            Some(s) => severity_to_health(s),
            None => Health::Okay,
        };
        let mut m = self;
        let ghost faults0 = m.faults@;
        let ghost health0 = m.health@;
        match assoc_position(&m.faults, entity_id) {
            Some(i) => {
                let (key, mut list) = m.faults.remove(i);
                list.push(fault);
                let e = (key, list);
                m.faults.insert(i, e);
                proof {
                    assert(m.faults@ =~= faults0.update(i as int, e));
                    assert forall|id: Seq<char>| #[trigger] assoc_lookup(m.faults@, id) == if id
                        == entity_id@ {
                        Some(e.1)
                    } else {
                        assoc_lookup(faults0, id)
                    } by {
                        lemma_lookup_update(faults0, i as int, entity_id@, e, id);
                    }
                }
            },
            None => {
                let mut list: Vec<FaultSummary> = Vec::new();
                list.push(fault);
                let e = (owned(entity_id), list);
                m.faults.push(e);
                proof {
                    assert forall|id: Seq<char>| #[trigger] assoc_lookup(m.faults@, id) == if id
                        == entity_id@ {
                        Some(e.1)
                    } else {
                        assoc_lookup(faults0, id)
                    } by {
                        lemma_lookup_push(faults0, e, id);
                    }
                }
            },
        }
        match assoc_position(&m.health, entity_id) {
            Some(i) => {
                let now = m.health[i].1.worst(implied);
                let e = (owned(entity_id), now);
                m.health.set(i, e);
                proof {
                    assert forall|id: Seq<char>| #[trigger] assoc_lookup(m.health@, id) == if id
                        == entity_id@ {
                        Some(now)
                    } else {
                        assoc_lookup(health0, id)
                    } by {
                        lemma_lookup_update(health0, i as int, entity_id@, e, id);
                    }
                }
            },
            None => {
                let now = Health::Okay.worst(implied);
                let e = (owned(entity_id), now);
                m.health.push(e);
                proof {
                    assert forall|id: Seq<char>| #[trigger] assoc_lookup(m.health@, id) == if id
                        == entity_id@ {
                        Some(now)
                    } else {
                        assoc_lookup(health0, id)
                    } by {
                        lemma_lookup_push(health0, e, id);
                    }
                }
            },
        }
        proof {
            assert forall|id: Seq<char>| #[trigger]
                m.spec_faults(id) == if id == entity_id@ {
                    self.spec_faults(id).push(fault)
                } else {
                    self.spec_faults(id)
                } by {
                if id == entity_id@ && assoc_lookup(faults0, id) is None {
                    assert(seq![fault] =~= Seq::<FaultSummary>::empty().push(fault));
                }
            }
        }
        m
    }

    /// Record a relationship edge from `from_id` to the wire-shaped `item`.
    pub fn with_relationship(self, from_id: &str, relation: Relation, item: Entity) -> (r:
        MockProvider)
        ensures
            r.spec_data() == self.spec_data(),
            r.spec_environments() == self.spec_environments(),
            r.wf() == self.wf(),
            r.spec_entities() == self.spec_entities(),
            r.spec_relationships().len() == self.spec_relationships().len() + 1,
            r.spec_relationships().drop_last() == self.spec_relationships(),
            r.spec_relationships().last().from_id@ == from_id@,
            r.spec_relationships().last().relation == relation,
            r.spec_relationships().last().item == item,
            forall|id: Seq<char>| #[trigger] r.spec_faults(id) == self.spec_faults(id),
            forall|id: Seq<char>| #[trigger] r.spec_health(id) == self.spec_health(id),
    {
        let mut m = self;
        m.relationships.push(RelationshipEdge { from_id: owned(from_id), relation, item });
        proof {
            assert(m.relationships@.drop_last() =~= self.relationships@);
        }
        m
    }

    /// Attach a readable data tree to an entity (served under `.../data`),
    /// replacing one attached before.
    pub fn with_data(self, entity_id: &str, data: Value) -> (r: MockProvider)
        requires
            self.wf(),
        ensures
            r.wf(),
            r.spec_data() == self.spec_data().insert(entity_id@, data),
            r.spec_environments() == self.spec_environments(),
            r.spec_entities() == self.spec_entities(),
            r.spec_relationships() == self.spec_relationships(),
            forall|id: Seq<char>| #[trigger] r.spec_faults(id) == self.spec_faults(id),
            forall|id: Seq<char>| #[trigger] r.spec_health(id) == self.spec_health(id),
    {
        let mut m = self;
        let mut list: Vec<(String, Value)> = Vec::new();
        std::mem::swap(&mut list, &mut m.data);
        insert_sorted(&mut list, owned(entity_id), data);
        m.data = list;
        m
    }

    /// Attach freeze-frame environment data for fault `fault_code` on an
    /// entity, replacing one attached before.
    pub fn with_fault_environment(self, entity_id: &str, fault_code: &str, env: EnvironmentData<Value>) -> (r:
        MockProvider)
        requires
            self.wf(),
        ensures
            r.wf(),
            r.spec_environments() == self.spec_environments().insert(
                entity_id@,
                envs_under(self.spec_environments(), entity_id@).insert(fault_code@, env),
            ),
            r.spec_data() == self.spec_data(),
            r.spec_entities() == self.spec_entities(),
            r.spec_relationships() == self.spec_relationships(),
            forall|id: Seq<char>| #[trigger] r.spec_faults(id) == self.spec_faults(id),
            forall|id: Seq<char>| #[trigger] r.spec_health(id) == self.spec_health(id),
    {
        let mut m = self;
        let mut outer: Vec<(String, Vec<(String, EnvironmentData<Value>)>)> = Vec::new();
        std::mem::swap(&mut outer, &mut m.fault_environments);
        let mut one: Vec<(String, EnvironmentData<Value>)> = Vec::new();
        let e = (owned(fault_code), env);
        let ghost ev = e;
        one.push(e);
        let ghost base = envs_under(env_map(outer@), entity_id@);
        proof {
            let es = one@;
            assert(es.drop_last() =~= Seq::<(String, EnvironmentData<Value>)>::empty());
            assert(es.last() == ev);
            assert(inserted_all(base, es.drop_last()) == base);
            assert(inserted_all(base, es) == base.insert(fault_code@, env));
        }
        extend_environments(&mut outer, owned(entity_id), one);
        m.fault_environments = outer;
        m
    }
}

/// Whether a nested environment map holds an environment for fault `code` on
/// entity `id`.
pub open spec fn holds_environment(
    m: Map<Seq<char>, Map<Seq<char>, EnvironmentData<Value>>>,
    id: Seq<char>,
    code: Seq<char>,
) -> bool {
    m.contains_key(id) && m[id].contains_key(code)
}

/// A copy of the environment a nested environment list holds for fault `code`
/// on entity `id`, if any.
pub fn find_environment(
    entries: &Vec<(String, Vec<(String, EnvironmentData<Value>)>)>,
    id: &str,
    code: &str,
) -> (r: Option<EnvironmentData<Value>>)
    ensures
        match r {
            Some(e) => holds_environment(env_map(entries@), id@, code@) && same_env(e, env_map(entries@)[id@][code@]),
            None => !holds_environment(env_map(entries@), id@, code@),
        },
{
    let ghost fe = entries@;
    match assoc_position(entries, id) {
        Some(i) => {
            proof {
                assert(has_key(fe, id@));
            }
            let inner = &entries[i].1;
            match assoc_position(inner, code) {
                Some(j) => {
                    proof {
                        assert(has_key(inner@, code@));
                    }
                    Some(copy_env(&inner[j].1))
                },
                None => {
                    proof {
                        if has_key(inner@, code@) {
                            let c = choose|c: int| 0 <= c < inner@.len() && #[trigger] inner@[c].0@ == code@;
                            assert(inner@[c].0@ == code@);
                        }
                    }
                    None
                },
            }
        },
        None => {
            proof {
                if has_key(fe, id@) {
                    let c = choose|c: int| 0 <= c < fe.len() && #[trigger] fe[c].0@ == id@;
                    assert(fe[c].0@ == id@);
                }
            }
            None
        },
    }
}

/// The environments under one key of a nested environment map (none when
/// the key is absent).
pub open spec fn envs_under(
    m: Map<Seq<char>, Map<Seq<char>, EnvironmentData<Value>>>,
    k: Seq<char>,
) -> Map<Seq<char>, EnvironmentData<Value>> {
    if m.contains_key(k) {
        m[k]
    } else {
        Map::empty()
    }
}

/// Insert each of `envs` under entity `key` of a nested environment list,
/// later entries winning, keeping both levels sorted.
pub fn extend_environments(
    outer: &mut Vec<(String, Vec<(String, EnvironmentData<Value>)>)>,
    key: String,
    envs: Vec<(String, EnvironmentData<Value>)>,
)
    requires
        envs_sorted(old(outer)@),
    ensures
        envs_sorted(final(outer)@),
        env_map(final(outer)@) == env_map(old(outer)@).insert(
            key@,
            inserted_all(envs_under(env_map(old(outer)@), key@), envs@),
        ),
{
    let ghost before = outer@;
    let ghost m0 = env_map(before);
    let ghost kv = key@;
    let ghost base = envs_under(m0, kv);
    let ghost new_inner: Vec<(String, EnvironmentData<Value>)>;
    match sorted_position(outer, key.as_str()) {
        Some(i) => {
            let (_old_key, mut inner) = remove_sorted(outer, i);
            proof {
                assert(keys_sorted(before[i as int].1@));
                assert(sorted_map(inner@) == base);
            }
            insert_each_sorted(&mut inner, envs);
            proof {
                new_inner = inner;
            }
            insert_sorted(outer, key, inner);
        },
        None => {
            let mut inner: Vec<(String, EnvironmentData<Value>)> = Vec::new();
            proof {
                assert(sorted_map(inner@) =~= Map::<Seq<char>, EnvironmentData<Value>>::empty());
                assert(sorted_map(inner@) == base);
            }
            insert_each_sorted(&mut inner, envs);
            proof {
                new_inner = inner;
            }
            insert_sorted(outer, key, inner);
        },
    }
    proof {
        let after = outer@;
        assert(keys_sorted(new_inner@));
        assert(sorted_map(after) == sorted_map(before).insert(kv, new_inner)) by {
            assert(sorted_map(after) =~= sorted_map(before).insert(kv, new_inner));
        }
        assert forall|j: int| 0 <= j < after.len() implies keys_sorted((#[trigger] after[j]).1@) by {
            lemma_sorted_map_at(after, j);
            let k = after[j].0@;
            if k != kv {
                assert(sorted_map(before).contains_key(k));
                let b = choose|b: int| 0 <= b < before.len() && #[trigger] before[b].0@ == k;
                lemma_sorted_map_at(before, b);
            }
        }
        assert(env_map(after) =~= m0.insert(kv, sorted_map(new_inner@)));
    }
}

impl Provider for MockProvider {
    closed spec fn spec_entities(&self) -> Seq<Entity> {
        self.entities@
    }

    closed spec fn spec_faults(&self, entity_id: Seq<char>) -> Seq<FaultSummary> {
        match assoc_lookup(self.faults@, entity_id) {
            Some(list) => list@,
            None => Seq::empty(),
        }
    }

    closed spec fn spec_health(&self, entity_id: Seq<char>) -> Health {
        match assoc_lookup(self.health@, entity_id) {
            Some(h) => h,
            None => Health::Okay,
        }
    }

    fn entities(&self) -> (r: Vec<Entity>) {
        copy_entities(&self.entities)
    }

    fn faults(&self, entity_id: &str) -> (r: Vec<FaultSummary>) {
        match assoc_position(&self.faults, entity_id) {
            Some(i) => copy_faults(&self.faults[i].1),
            None => Vec::new(),
        }
    }

    fn health(&self, entity_id: &str) -> (r: Health) {
        match assoc_position(&self.health, entity_id) {
            Some(i) => self.health[i].1,
            None => Health::Okay,
        }
    }

    fn fault_environment(&self, entity_id: &str, fault_code: &str) -> (r: Option<EnvironmentData<Value>>)
        ensures
            match r {
                Some(e) => holds_environment(self.spec_environments(), entity_id@, fault_code@) && same_env(
                    e,
                    self.spec_environments()[entity_id@][fault_code@],
                ),
                None => !holds_environment(self.spec_environments(), entity_id@, fault_code@),
            },
    {
        find_environment(&self.fault_environments, entity_id, fault_code)
    }

    /// A consistent read-model snapshot: the entities, the relationship edges,
    /// the non-empty fault lists, the captured environments and the data trees.
    fn snapshot(&self) -> (r: ProviderSnapshot)
        ensures
            r.entities@ == self.spec_entities(),
            r.relationships@ == self.spec_relationships(),
            r.faults@.len() == self.spec_fault_entries().len(),
            forall|i: int|
                0 <= i < r.faults@.len() ==> #[trigger] same_entry(
                    r.faults@[i],
                    self.spec_fault_entries()[i],
                ),
            sorted_map(r.data@) == self.spec_data(),
            self.wf() ==> keys_sorted(r.data@),
            self.wf() ==> envs_sorted(r.fault_environments@),
            same_env_entries(r.fault_environments@, self.spec_environment_entries()),
    {
        let mut faults: Vec<(String, Vec<FaultSummary>)> = Vec::new();
        let mut i: usize = 0;
        while i < self.faults.len()
            invariant
                i <= self.faults@.len(),
                faults@.len() == i,
                forall|k: int| 0 <= k < i ==> #[trigger] same_entry(faults@[k], self.faults@[k]),
            decreases self.faults@.len() - i,
        {
            let entry = (owned(self.faults[i].0.as_str()), copy_faults(&self.faults[i].1));
            faults.push(entry);
            assert(same_entry(faults@[i as int], self.faults@[i as int]));
            i = i + 1;
        }
        let data = copy_data(&self.data);
        let fault_environments = copy_env_entries(&self.fault_environments);
        proof {
            let a = fault_environments@;
            let b = self.fault_environments@;
            if self.wf() {
                assert forall|x: int, y: int| 0 <= x < y < a.len() implies seq_less(a[x].0@, a[y].0@) by {
                    assert(a[x].0@ == b[x].0@ && a[y].0@ == b[y].0@);
                }
                assert forall|x: int| 0 <= x < a.len() implies keys_sorted((#[trigger] a[x]).1@) by {
                    assert(a[x].0@ == b[x].0@ && a[x].1@.len() == b[x].1@.len());
                    assert(keys_sorted(b[x].1@));
                    assert forall|p: int, q: int| 0 <= p < q < a[x].1@.len() implies seq_less(a[x].1@[p].0@, a[x].1@[q].0@) by {
                        assert(a[x].1@[p].0@ == b[x].1@[p].0@);
                        assert(a[x].1@[q].0@ == b[x].1@[q].0@);
                    }
                }
            }
        }
        ProviderSnapshot {
            entities: copy_entities(&self.entities),
            relationships: copy_edges(&self.relationships),
            faults,
            fault_environments,
            data,
        }
    }

}

} // verus!
