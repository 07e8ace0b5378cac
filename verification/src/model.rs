//! Wire data types of the SOVD-aligned runtime-diagnostics surface: the entity
//! tree, collection envelopes, the DTC / fault model and the generic error
//! envelope, plus the severity and health orderings the rollup relies on.
//!
//! String-keyed maps of the wire contract (`_links`, error `parameters`) are held
//! as ordered `(key, value)` vectors.

use vstd::prelude::*;

verus! {

/// Kind of SOVD entity in the diagnostic tree.
#[derive(Clone, Copy, Debug, PartialEq, Eq, Hash, Structural)]
pub enum EntityKind {
    /// Physical or logical domain grouping.
    Area,
    /// Logical grouping of apps; the unit health rolls up over.
    Component,
    /// A logical capability spanning apps.
    Function,
    /// A single running process / node.
    App,
}

/// Fault severity, ordered least-to-most severe.
#[derive(Clone, Copy, Debug, PartialEq, Eq, PartialOrd, Ord, Structural)]
pub enum Severity {
    /// Informational; wire value `0`.
    Info,
    /// Warning-level fault; wire value `1`.
    Warn,
    /// Error-level fault; wire value `2`.
    Error,
    /// Critical fault; wire value `3`.
    Critical,
}

/// The numeric wire value of a severity level.
pub open spec fn severity_wire(s: Severity) -> u8 {
    match s {
        Severity::Info => 0,
        Severity::Warn => 1,
        Severity::Error => 2,
        Severity::Critical => 3,
    }
}

/// The severity a numeric wire value denotes, if it is a known level.
pub open spec fn severity_of_wire(v: u8) -> Option<Severity> {
    if v == 0 {
        Some(Severity::Info)
    } else if v == 1 {
        Some(Severity::Warn)
    } else if v == 2 {
        Some(Severity::Error)
    } else if v == 3 {
        Some(Severity::Critical)
    } else {
        None
    }
}

impl Severity {
    /// The numeric wire value the contract uses for this severity.
    pub fn wire_value(self) -> (r: u8)
        ensures
            r == severity_wire(self),
    {
        match self {
            Severity::Info => 0,
            Severity::Warn => 1,
            Severity::Error => 2,
            Severity::Critical => 3,
        }
    }

    /// Interpret a numeric wire `severity` value, if it is a known level.
    pub fn from_wire_value(value: u8) -> (r: Option<Severity>)
        ensures
            r == severity_of_wire(value),
    {
        match value {
            0 => Some(Severity::Info),
            1 => Some(Severity::Warn),
            2 => Some(Severity::Error),
            3 => Some(Severity::Critical),
            _ => None,
        }
    }
}

/// Aggregated health of an entity, ordered least-to-most severe.
#[derive(Clone, Copy, Debug, PartialEq, Eq, PartialOrd, Ord, Structural)]
pub enum Health {
    /// No active fault.
    Okay,
    /// At least one warning, no error or worse.
    Warning,
    /// At least one error, no critical.
    Error,
    /// At least one critical fault.
    Critical,
}

/// The position of a health level in the least-to-most-severe order.
pub open spec fn health_rank(h: Health) -> nat {
    match h {
        Health::Okay => 0,
        Health::Warning => 1,
        Health::Error => 2,
        Health::Critical => 3,
    }
}

/// The worse of two health levels.
pub open spec fn worst_of(a: Health, b: Health) -> Health {
    if health_rank(a) >= health_rank(b) {
        a
    } else {
        b
    }
}

/// Distinct health levels have distinct ranks, so the rank order is total.
pub proof fn lemma_health_rank_injective(a: Health, b: Health)
    ensures
        health_rank(a) == health_rank(b) <==> a == b,
{
}

impl Health {
    /// The rank of this level in the least-to-most-severe order.
    pub fn rank(self) -> (r: u8)
        ensures
            r == health_rank(self),
    {
        match self {
            Health::Okay => 0,
            Health::Warning => 1,
            Health::Error => 2,
            Health::Critical => 3,
        }
    }

    /// The worse of `self` and `other` (the worst-wins combination).
    pub fn worst(self, other: Health) -> (r: Health)
        ensures
            r == worst_of(self, other),
    {
        if self.rank() >= other.rank() {
            self
        } else {
            other
        }
    }
}

/// The `ros2` sub-object of an entity's `x-medkit` extension.
#[derive(Clone, Debug, PartialEq, Eq)]
pub struct Ros2Ref {
    /// The ROS 2 node fully-qualified name.
    pub node: String,
}

/// The `x-medkit` extension carried on an entity summary item.
#[derive(Clone, Debug, PartialEq, Eq, Default)]
pub struct EntityMeta {
    /// Owning component id, when the entity is an app surfaced under a component.
    pub component_id: Option<String>,
    /// Whether the backing node is currently online.
    pub is_online: Option<bool>,
    /// Backing ROS 2 node reference, when known.
    pub ros2: Option<Ros2Ref>,
    /// How the entity was discovered (e.g. `heuristic`, `runtime`, `manifest`).
    pub source: Option<String>,
}

/// A node in the SOVD entity tree as served in a collection.
#[derive(Clone, Debug, PartialEq, Eq)]
pub struct Entity {
    /// Self link for the entity.
    pub href: String,
    /// Stable identifier, unique within the tree.
    pub id: String,
    /// Human-readable name.
    pub name: String,
    /// The kind of entity (the contract's `type` discriminator).
    pub kind: EntityKind,
    /// Parent entity id, driving the internal worst-wins health rollup.
    pub parent_id: Option<String>,
    /// Optional human-readable description.
    pub description: Option<String>,
    /// The `x-medkit` extension object, when decorated.
    pub x_medkit: Option<EntityMeta>,
}

/// The characters of an optional string.
pub open spec fn opt_view(o: Option<String>) -> Option<Seq<char>> {
    match o {
        Some(s) => Some(s@),
        None => None,
    }
}

/// The abstract contents of an [`EntityMeta`].
pub struct EntityMetaView {
    /// Owning component id.
    pub component_id: Option<Seq<char>>,
    /// Whether the backing node is online.
    pub is_online: Option<bool>,
    /// Backing ROS 2 node name.
    pub ros2: Option<Seq<char>>,
    /// Discovery source tag.
    pub source: Option<Seq<char>>,
}

/// The abstract contents of an [`Entity`]: every string by its characters.
pub struct EntityView {
    /// Self link.
    pub href: Seq<char>,
    /// Identifier.
    pub id: Seq<char>,
    /// Name.
    pub name: Seq<char>,
    /// Kind.
    pub kind: EntityKind,
    /// Parent entity id.
    pub parent_id: Option<Seq<char>>,
    /// Description.
    pub description: Option<Seq<char>>,
    /// The `x-medkit` extension.
    pub x_medkit: Option<EntityMetaView>,
}

impl View for EntityMeta {
    type V = EntityMetaView;

    open spec fn view(&self) -> EntityMetaView {
        EntityMetaView {
            component_id: opt_view(self.component_id),
            is_online: self.is_online,
            ros2: match self.ros2 {
                Some(r) => Some(r.node@),
                None => None,
            },
            source: opt_view(self.source),
        }
    }
}

impl View for Entity {
    type V = EntityView;

    open spec fn view(&self) -> EntityView {
        EntityView {
            href: self.href@,
            id: self.id@,
            name: self.name@,
            kind: self.kind,
            parent_id: opt_view(self.parent_id),
            description: opt_view(self.description),
            x_medkit: match self.x_medkit {
                Some(m) => Some(m@),
                None => None,
            },
        }
    }
}

/// The abstract contents of a sequence of entities.
pub open spec fn entity_views(s: Seq<Entity>) -> Seq<EntityView> {
    s.map_values(|e: Entity| e@)
}

/// A field-for-field copy of an optional string.
pub fn copy_opt_string(s: &Option<String>) -> (r: Option<String>)
    ensures
        r == *s,
{
    match s {
        Some(v) => Some(v.clone()),
        None => None,
    }
}

impl Ros2Ref {
    /// A field-for-field copy.
    pub fn duplicate(&self) -> (r: Ros2Ref)
        ensures
            r == *self,
    {
        Ros2Ref { node: self.node.clone() }
    }
}

impl EntityMeta {
    /// A field-for-field copy.
    pub fn duplicate(&self) -> (r: EntityMeta)
        ensures
            r == *self,
    {
        EntityMeta {
            component_id: copy_opt_string(&self.component_id),
            is_online: self.is_online,
            ros2: match &self.ros2 {
                Some(r) => Some(r.duplicate()),
                None => None,
            },
            source: copy_opt_string(&self.source),
        }
    }
}

impl Entity {
    /// A field-for-field copy.
    pub fn duplicate(&self) -> (r: Entity)
        ensures
            r == *self,
    {
        Entity {
            href: self.href.clone(),
            id: self.id.clone(),
            name: self.name.clone(),
            kind: self.kind,
            parent_id: copy_opt_string(&self.parent_id),
            description: copy_opt_string(&self.description),
            x_medkit: match &self.x_medkit {
                Some(m) => Some(m.duplicate()),
                None => None,
            },
        }
    }
}

/// A field-for-field copy of a vector of entities.
pub fn copy_entities(v: &Vec<Entity>) -> (r: Vec<Entity>)
    ensures
        r@ == v@,
{
    let mut out: Vec<Entity> = Vec::new();
    let mut i: usize = 0;
    while i < v.len()
        invariant
            i <= v.len(),
            out@ == v@.subrange(0, i as int),
        decreases v.len() - i,
    {
        out.push(v[i].duplicate());
        i = i + 1;
    }
    assert(v@.subrange(0, v.len() as int) == v@);
    out
}

/// The `x-medkit` extension carried on a collection envelope.
#[derive(Clone, Copy, Debug, PartialEq, Eq)]
pub struct CollectionMeta {
    /// Total number of items in the collection.
    pub total_count: usize,
}

/// A SOVD collection envelope: `items`, optional HATEOAS `_links` (key, href)
/// pairs, and the `x-medkit` extension carrying `total_count`.
#[derive(Clone, Debug, PartialEq, Eq)]
pub struct Collection<T> {
    /// The collected items.
    pub items: Vec<T>,
    /// HATEOAS link map, when present, as `(key, href)` pairs in key order.
    pub links: Option<Vec<(String, String)>>,
    /// The `x-medkit` collection extension.
    pub x_medkit: CollectionMeta,
}

impl<T> Collection<T> {
    /// Wrap `items` in a top-level collection envelope (no `_links`), setting
    /// `total_count` to its length.
    pub fn new(items: Vec<T>) -> (r: Collection<T>)
        ensures
            r.items@ == items@,
            r.links is None,
            r.x_medkit.total_count == items@.len(),
    {
        let total_count = items.len();
        Collection { items, links: None, x_medkit: CollectionMeta { total_count } }
    }
}

/// A summary of one active fault, as served in fault lists.
///
/// The two occurrence instants are fractional epoch seconds carried as the
/// IEEE-754 bit pattern of their `f64` value (`f64::to_bits`); nothing here
/// computes on them.
#[derive(Clone, Debug, PartialEq, Eq)]
pub struct FaultSummary {
    /// Human-readable fault description.
    pub description: String,
    /// Global fault code identifier (e.g. `BRAKE_PRESSURE_LOW`).
    pub fault_code: String,
    /// First occurrence, epoch seconds, as `f64` bits.
    pub first_occurred: u64,
    /// Last occurrence, epoch seconds, as `f64` bits.
    pub last_occurred: u64,
    /// Aggregated occurrences across all reporting sources.
    pub occurrence_count: u32,
    /// Identifiers of every source reporting this fault (ROS node FQNs).
    pub reporting_sources: Vec<String>,
    /// Numeric severity (see [`Severity`] for the level mapping).
    pub severity: u8,
    /// Human-readable severity label (e.g. `ERROR`, `WARN`).
    pub severity_label: String,
    /// Raw fault lifecycle status (e.g. `CONFIRMED`, `PREFAILED`).
    pub status: String,
}

/// Whether two fault summaries hold the same field values (the reporting
/// sources compared by their contents).
pub open spec fn same_fault(a: FaultSummary, b: FaultSummary) -> bool {
    &&& a.description == b.description
    &&& a.fault_code == b.fault_code
    &&& a.first_occurred == b.first_occurred
    &&& a.last_occurred == b.last_occurred
    &&& a.occurrence_count == b.occurrence_count
    &&& a.reporting_sources@ == b.reporting_sources@
    &&& a.severity == b.severity
    &&& a.severity_label == b.severity_label
    &&& a.status == b.status
}

/// Whether two fault sequences hold the same faults, position by position.
pub open spec fn same_faults(a: Seq<FaultSummary>, b: Seq<FaultSummary>) -> bool {
    &&& a.len() == b.len()
    &&& forall|i: int| 0 <= i < a.len() ==> #[trigger] same_fault(a[i], b[i])
}

impl FaultSummary {
    /// A field-for-field copy.
    pub fn duplicate(&self) -> (r: FaultSummary)
        ensures
            same_fault(r, *self),
    {
        FaultSummary {
            description: self.description.clone(),
            fault_code: self.fault_code.clone(),
            first_occurred: self.first_occurred,
            last_occurred: self.last_occurred,
            occurrence_count: self.occurrence_count,
            reporting_sources: copy_strings(&self.reporting_sources),
            severity: self.severity,
            severity_label: self.severity_label.clone(),
            status: self.status.clone(),
        }
    }
}

/// A field-for-field copy of a vector of strings.
pub fn copy_strings(v: &Vec<String>) -> (r: Vec<String>)
    ensures
        r@ == v@,
{
    let mut out: Vec<String> = Vec::new();
    let mut i: usize = 0;
    while i < v.len()
        invariant
            i <= v.len(),
            out@ == v@.subrange(0, i as int),
        decreases v.len() - i,
    {
        out.push(v[i].clone());
        i = i + 1;
    }
    assert(v@.subrange(0, v.len() as int) == v@);
    out
}

/// A field-for-field copy of a vector of fault summaries.
pub fn copy_faults(v: &Vec<FaultSummary>) -> (r: Vec<FaultSummary>)
    ensures
        same_faults(r@, v@),
{
    let mut out: Vec<FaultSummary> = Vec::new();
    let mut i: usize = 0;
    while i < v.len()
        invariant
            i <= v.len(),
            out@.len() == i,
            forall|k: int| 0 <= k < i ==> #[trigger] same_fault(out@[k], v@[k]),
        decreases v.len() - i,
    {
        out.push(v[i].duplicate());
        i = i + 1;
    }
    out
}

/// The `x-medkit` extension carried on a fault-list envelope.
#[derive(Clone, Debug, PartialEq, Eq, Default)]
pub struct FaultListMeta {
    /// Number of faults in this list.
    pub count: u32,
    /// Number of muted faults.
    pub muted_count: Option<u32>,
    /// Number of fault clusters.
    pub cluster_count: Option<u32>,
    /// Scoping entity id.
    pub entity_id: Option<String>,
    /// Scoping source id / node FQN.
    pub source_id: Option<String>,
    /// Whether this list aggregates across owned apps.
    pub aggregated: Option<bool>,
    /// Aggregation level (e.g. `component`).
    pub aggregation_level: Option<String>,
    /// The app FQNs aggregated over.
    pub aggregation_sources: Option<Vec<String>>,
    /// Number of apps aggregated.
    pub app_count: Option<u32>,
}

/// A fault-list envelope: the faults plus the `x-medkit` list extension.
#[derive(Clone, Debug, PartialEq, Eq)]
pub struct FaultList {
    /// The faults in this list.
    pub items: Vec<FaultSummary>,
    /// The `x-medkit` fault-list extension.
    pub x_medkit: FaultListMeta,
}

/// SOVD/UDS-style DTC status sub-object (values are `"1"` / `"0"` strings).
#[derive(Clone, Debug, PartialEq, Eq)]
pub struct DtcStatus {
    /// Aggregated status label (e.g. `active`).
    pub aggregated_status: String,
    /// Whether the most recent test failed.
    pub test_failed: String,
    /// Whether the DTC is confirmed.
    pub confirmed_dtc: String,
    /// Whether the DTC is pending.
    pub pending_dtc: String,
}

/// The `item` sub-object of a fault detail.
#[derive(Clone, Debug, PartialEq, Eq)]
pub struct FaultItem {
    /// Global fault code identifier.
    pub code: String,
    /// Human-readable fault name / description.
    pub fault_name: String,
    /// Numeric severity.
    pub severity: u8,
    /// SOVD/UDS status sub-object.
    pub status: DtcStatus,
}

/// First / last occurrence bookkeeping for a fault, as ISO-8601 timestamps.
#[derive(Clone, Debug, PartialEq, Eq)]
pub struct ExtendedDataRecords {
    /// First occurrence, ISO-8601.
    pub first_occurrence: String,
    /// Last occurrence, ISO-8601.
    pub last_occurrence: String,
}

/// The `x-medkit` extension carried on a freeze-frame snapshot.
#[derive(Clone, Debug, PartialEq, Eq)]
pub struct FreezeFrameMeta<D> {
    /// Capture time, ISO-8601.
    pub captured_at: String,
    /// The full captured payload.
    pub full_data: D,
    /// ROS 2 message type of the captured topic.
    pub message_type: String,
    /// ROS 2 topic the snapshot was captured from.
    pub topic: String,
}

/// A freeze-frame / snapshot of system state captured at fault time.
#[derive(Clone, Debug, PartialEq, Eq)]
pub struct FreezeFrame<D> {
    /// The captured payload.
    pub data: D,
    /// Human-readable label for the snapshot.
    pub name: String,
    /// Snapshot discriminator (e.g. `freeze_frame`).
    pub kind: String,
    /// The `x-medkit` snapshot extension.
    pub x_medkit: FreezeFrameMeta<D>,
}

/// Environment data attached to a fault detail.
#[derive(Clone, Debug, PartialEq, Eq)]
pub struct EnvironmentData<D> {
    /// First / last occurrence records.
    pub extended_data_records: ExtendedDataRecords,
    /// Zero or more freeze-frame captures.
    pub snapshots: Vec<FreezeFrame<D>>,
}

/// The `x-medkit` extension carried on a fault detail.
#[derive(Clone, Debug, PartialEq, Eq)]
pub struct FaultDetailMeta {
    /// Aggregated occurrences across all reporting sources.
    pub occurrence_count: u32,
    /// Identifiers of every source reporting this fault.
    pub reporting_sources: Vec<String>,
    /// Human-readable severity label.
    pub severity_label: String,
    /// Raw lifecycle status.
    pub status_raw: String,
}

/// A single fault / DTC detail.
#[derive(Clone, Debug, PartialEq, Eq)]
pub struct FaultDetail<D> {
    /// Occurrence records and freeze-frame snapshots.
    pub environment_data: EnvironmentData<D>,
    /// The DTC identity, severity, and status sub-object.
    pub item: FaultItem,
    /// The `x-medkit` fault-detail extension.
    pub x_medkit: FaultDetailMeta,
}

/// The `x-medkit` extension carried on a fault-stream event.
#[derive(Clone, Debug, PartialEq, Eq)]
pub struct FaultEventMeta {
    /// The entity the fault is scoped to.
    pub entity_id: String,
    /// The entity-collection type (e.g. `apps`).
    pub entity_type: String,
}

/// One event on the fault stream.
#[derive(Clone, Debug, PartialEq, Eq)]
pub struct FaultEvent {
    /// The event kind (e.g. `fault_confirmed`).
    pub event_type: String,
    /// The fault payload.
    pub fault: FaultSummary,
    /// Event time, epoch seconds, as `f64` bits.
    pub timestamp: u64,
    /// The `x-medkit` event-scoping extension.
    pub x_medkit: FaultEventMeta,
}

/// The gateway's generic error envelope: a machine-readable code, a human
/// message, and `(key, value)` context parameters in key order.
#[derive(Clone, Debug, PartialEq, Eq)]
pub struct GenericError {
    /// Machine-readable error code (e.g. `entity-not-found`).
    pub error_code: String,
    /// Human-readable error message.
    pub message: String,
    /// Contextual parameters, as `(key, value)` pairs in key order.
    pub parameters: Vec<(String, String)>,
}

/// The source identity of the running binary, reported under `/version-info`.
#[derive(Clone, Debug, PartialEq, Eq)]
pub struct BuildInfo {
    /// Full commit hash.
    pub git_sha: String,
    /// Abbreviated commit hash.
    pub git_short: String,
    /// `git describe` output.
    pub git_describe: String,
    /// Whether the working tree had uncommitted changes.
    pub git_dirty: bool,
    /// When the binary was built.
    pub build_timestamp: String,
    /// The compiler that built it.
    pub rustc_version: String,
}

impl Default for BuildInfo {
    /// An identity that knows nothing: every text field `unknown`, not dirty.
    fn default() -> (r: BuildInfo)
        ensures
            r.git_sha@ == "unknown"@,
            r.git_short@ == "unknown"@,
            r.git_describe@ == "unknown"@,
            !r.git_dirty,
            r.build_timestamp@ == "unknown"@,
            r.rustc_version@ == "unknown"@,
    {
        BuildInfo {
            git_sha: String::from_str("unknown"),
            git_short: String::from_str("unknown"),
            git_describe: String::from_str("unknown"),
            git_dirty: false,
            build_timestamp: String::from_str("unknown"),
            rustc_version: String::from_str("unknown"),
        }
    }
}

} // verus!
