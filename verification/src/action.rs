//! The write/action seam: the command-side analogue of the read-side
//! [`Provider`](crate::provider::Provider).
//!
//! The gateway performs every write (operation executions) through the
//! [`ActionSink`] trait. [`SimActionSink`] is the in-memory implementation that
//! backs tests and the walking skeleton: it keeps a per-resource operation
//! catalogue and a registry of executions keyed by execution id, and completes
//! every started execution at once with a result that echoes its arguments.

use vstd::prelude::*;
use serde_json::Value;
use crate::assoc::{assoc_lookup, assoc_position, lemma_lookup_push, lemma_lookup_update};
use crate::model::EntityKind;
use crate::provider::{ActionError, ExecutionStatus, OperationDef, ResourceRef};
use crate::view::json_get;
use crate::error::{action_error, error_is, target_params, ApiError};
use crate::sorted::{insert_sorted, keys_sorted, lemma_sorted_map_at, remove_sorted, sorted_map, sorted_position};
use crate::text::{decimal, owned, push_decimal, seq_less, str_eq};

verus! {

#[verifier::external_type_specification]
#[verifier::external_body]
pub struct ExJsonValue(Value);

/// `serde_json::Value`'s derived `Clone`: the copy is the same JSON value.
#[verifier::external_body]
pub(crate) fn copy_value(v: &Value) -> (r: Value)
    ensures
        r == *v,
{
    v.clone()
}

/// The JSON object `Value::Object` over the `serde_json::Map` collected from
/// the members `entries` (key, value), in order.
pub uninterp spec fn json_object_of(entries: Seq<(Seq<char>, Value)>) -> Value;

/// The keys and values of object members, by their characters.
pub open spec fn members_view(entries: Seq<(String, Value)>) -> Seq<(Seq<char>, Value)> {
    entries.map_values(|e: (String, Value)| (e.0@, e.1))
}

/// No two members share a key.
pub open spec fn distinct_keys(entries: Seq<(Seq<char>, Value)>) -> bool {
    forall|i: int, j: int| 0 <= i < j < entries.len() ==> entries[i].0 != entries[j].0
}

/// The value of the first member with key `k`, if any.
pub open spec fn member_of(entries: Seq<(Seq<char>, Value)>, k: Seq<char>) -> Option<Value>
    decreases entries.len(),
{
    if entries.len() == 0 {
        None
    } else if entries[0].0 == k {
        Some(entries[0].1)
    } else {
        member_of(entries.drop_first(), k)
    }
}

/// `Value::Object` over the `serde_json::Map` collected from `entries`. The
/// result is the object of these members; when no two share a key, looking a
/// key up in it (`Value::get`, which on an object is the map's `get`) finds
/// exactly the member with that key.
#[verifier::external_body]
pub(crate) fn json_object(entries: Vec<(String, Value)>) -> (r: Value)
    ensures
        r == json_object_of(members_view(entries@)),
        distinct_keys(members_view(entries@)) ==> forall|k: Seq<char>|
            #[trigger] json_get(r, k) == member_of(members_view(entries@), k),
{
    Value::Object(entries.into_iter().collect())
}

/// A reified execution the registry tracks and the gateway serves under
/// `.../executions/{id}`.
#[derive(Clone, Debug)]
pub struct Execution {
    /// The server-assigned execution id.
    pub id: String,
    /// The operation this execution belongs to.
    pub operation_id: String,
    /// The current lifecycle state.
    pub status: ExecutionStatus,
    /// The outcome, once the execution reaches a terminal state.
    pub result: Option<Value>,
}

impl Execution {
    /// A copy equal to this execution.
    pub fn duplicate(&self) -> (r: Execution)
        ensures
            r == *self,
    {
        let result = match &self.result {
            Some(v) => Some(copy_value(v)),
            None => None,
        };
        Execution { id: self.id.clone(), operation_id: self.operation_id.clone(), status: self.status, result }
    }
}

impl OperationDef {
    /// A copy equal to this catalogue entry.
    pub fn duplicate(&self) -> (r: OperationDef)
        ensures
            r == *self,
    {
        let description = match &self.description {
            Some(d) => Some(d.clone()),
            None => None,
        };
        OperationDef { id: self.id.clone(), name: self.name.clone(), description }
    }
}

/// A copy of a list of catalogue entries, entry for entry.
pub fn copy_operations(v: &Vec<OperationDef>) -> (r: Vec<OperationDef>)
    ensures
        r@ == v@,
{
    let mut out: Vec<OperationDef> = Vec::new();
    let mut i: usize = 0;
    while i < v.len()
        invariant
            i <= v@.len(),
            out@ == v@.take(i as int),
        decreases v@.len() - i,
    {
        out.push(v[i].duplicate());
        i = i + 1;
        proof {
            assert(v@.take(i as int) =~= v@.take(i - 1).push(v@[i - 1]));
        }
    }
    proof {
        assert(v@.take(v@.len() as int) =~= v@);
    }
    out
}

/// One tracked execution together with the resource it was started on.
#[derive(Clone, Debug)]
pub struct ExecRecord {
    /// The kind of the resource.
    pub kind: EntityKind,
    /// The id of the resource.
    pub target: String,
    /// The execution itself.
    pub execution: Execution,
}

/// Whether a record belongs to operation `op` on resource `(kind, id)`.
pub open spec fn record_matches(r: ExecRecord, kind: EntityKind, id: Seq<char>, op: Seq<char>) -> bool {
    r.kind == kind && r.target@ == id && r.execution.operation_id@ == op
}

/// The operations one kind's catalogue lists for resource `id` (none for a
/// resource it does not know).
pub open spec fn operations_of(list: Seq<(String, Vec<OperationDef>)>, id: Seq<char>) -> Seq<OperationDef> {
    match assoc_lookup(list, id) {
        Some(ops) => ops@,
        None => Seq::empty(),
    }
}

/// Whether a catalogue list holds an operation with id `op`.
pub open spec fn lists_operation(ops: Seq<OperationDef>, op: Seq<char>) -> bool {
    exists|i: int| 0 <= i < ops.len() && #[trigger] ops[i].id@ == op
}

/// Each record is filed under its execution's id.
pub open spec fn filed_by_id(records: Map<Seq<char>, ExecRecord>) -> bool {
    forall|k: Seq<char>| #[trigger] records.contains_key(k) ==> records[k].execution.id@ == k
}

/// Whether the registry holds execution `exec_id` for operation `op` on
/// resource `(kind, id)`.
pub open spec fn holds_execution(
    records: Map<Seq<char>, ExecRecord>,
    kind: EntityKind,
    id: Seq<char>,
    op: Seq<char>,
    exec_id: Seq<char>,
) -> bool {
    records.contains_key(exec_id) && record_matches(records[exec_id], kind, id, op)
}

/// `v` lists exactly the executions of operation `op` on resource `(kind, id)`
/// that the registry holds, in increasing id order.
pub open spec fn lists_executions(
    records: Map<Seq<char>, ExecRecord>,
    kind: EntityKind,
    id: Seq<char>,
    op: Seq<char>,
    v: Seq<Execution>,
) -> bool {
    &&& forall|a: int, b: int| 0 <= a < b < v.len() ==> seq_less(#[trigger] v[a].id@, #[trigger] v[b].id@)
    &&& forall|a: int|
        0 <= a < v.len() ==> holds_execution(records, kind, id, op, #[trigger] v[a].id@) && records[v[a].id@].execution
            == v[a]
    &&& forall|k: Seq<char>|
        #[trigger] holds_execution(records, kind, id, op, k) ==> exists|a: int| 0 <= a < v.len() && #[trigger] v[a].id@ == k
}

/// A catalogue entry whose id and name are both `op`, without description.
pub open spec fn names_operation(def: OperationDef, op: Seq<char>) -> bool {
    def.id@ == op && def.name@ == op && def.description is None
}

/// The id the sink gives the execution it starts when its counter reads `n`.
pub open spec fn execution_id(n: u64) -> Seq<char> {
    "exec-"@ + decimal(n as nat)
}

/// The counter after one execution was started: it wraps around at the top.
pub open spec fn next_count(n: u64) -> u64 {
    if n == u64::MAX {
        0
    } else {
        (n + 1) as u64
    }
}

/// The command (write) seam the gateway performs its writes through.
pub trait ActionSink {
    /// The operations available on `target` (empty for an unknown target).
    fn operations(&self, target: &ResourceRef) -> Vec<OperationDef>;

    /// Start an execution of operation `op` on `target` with `args`;
    /// [`ActionError::NotFound`] if `op` is not in the target's catalogue.
    fn start_operation(&mut self, target: &ResourceRef, op: &str, args: Value) -> Result<Execution, ActionError>;

    /// The executions of operation `op` on `target`;
    /// [`ActionError::NotFound`] if `op` is not in the target's catalogue.
    fn executions(&self, target: &ResourceRef, op: &str) -> Result<Vec<Execution>, ActionError>;

    /// One execution by id; [`ActionError::NotFound`] if no such execution
    /// exists for `op` on `target`.
    fn execution(&self, target: &ResourceRef, op: &str, exec_id: &str) -> Result<Execution, ActionError>;

    /// Cancel (if running) or remove (if terminal) an execution; either way
    /// it is gone afterwards. [`ActionError::NotFound`] if no such execution
    /// exists for `op` on `target`.
    fn cancel_execution(&mut self, target: &ResourceRef, op: &str, exec_id: &str) -> Result<(), ActionError>;
}

/// An in-memory [`ActionSink`] for tests and the walking skeleton.
///
/// Operations are configured per resource with
/// [`with_operation`](Self::with_operation). A started execution completes at
/// once, with a result that echoes the request arguments.
#[derive(Debug)]
pub struct SimActionSink {
    areas: Vec<(String, Vec<OperationDef>)>,
    components: Vec<(String, Vec<OperationDef>)>,
    functions: Vec<(String, Vec<OperationDef>)>,
    apps: Vec<(String, Vec<OperationDef>)>,
    records: Vec<(String, ExecRecord)>,
    next: u64,
}

impl SimActionSink {
    /// The registry is ordered by execution id and each record is filed
    /// under its execution's id.
    #[verifier::type_invariant]
    spec fn registry_ordered(&self) -> bool {
        &&& keys_sorted(self.records@)
        &&& filed_by_id(sorted_map(self.records@))
    }

    /// The catalogue of the resources of one kind, as `(id, operations)` entries.
    pub closed spec fn kind_catalogue(&self, kind: EntityKind) -> Seq<(String, Vec<OperationDef>)> {
        match kind {
            EntityKind::Area => self.areas@,
            EntityKind::Component => self.components@,
            EntityKind::Function => self.functions@,
            EntityKind::App => self.apps@,
        }
    }

    /// The operations registered on resource `(kind, id)`, in registration order.
    pub open spec fn spec_operations(&self, kind: EntityKind, id: Seq<char>) -> Seq<OperationDef> {
        operations_of(self.kind_catalogue(kind), id)
    }

    /// Whether operation `op` is registered on resource `(kind, id)`.
    pub open spec fn spec_has_operation(&self, kind: EntityKind, id: Seq<char>, op: Seq<char>) -> bool {
        lists_operation(self.spec_operations(kind, id), op)
    }

    /// The tracked executions, keyed by execution id.
    pub closed spec fn spec_records(&self) -> Map<Seq<char>, ExecRecord> {
        sorted_map(self.records@)
    }

    /// The counter the next execution id is made from.
    pub closed spec fn spec_next(&self) -> u64 {
        self.next
    }

    /// An empty sink: no operations on any resource, no executions.
    pub fn new() -> (r: SimActionSink)
        ensures
            forall|kind: EntityKind, id: Seq<char>| #[trigger] r.spec_operations(kind, id) == Seq::<OperationDef>::empty(),
            r.spec_records() == Map::<Seq<char>, ExecRecord>::empty(),
            r.spec_next() == 0,
    {
        let r = SimActionSink {
            areas: Vec::new(),
            components: Vec::new(),
            functions: Vec::new(),
            apps: Vec::new(),
            records: Vec::new(),
            next: 0,
        };
        assert(sorted_map(r.records@) =~= Map::<Seq<char>, ExecRecord>::empty());
        r
    }

    /// Register operation `op` (id and name both `op`) on entity `id` of `kind`.
    pub fn with_operation(self, kind: EntityKind, id: &str, op: &str) -> (r: SimActionSink)
        ensures
            r.spec_operations(kind, id@) == self.spec_operations(kind, id@).push(r.spec_operations(kind, id@).last()),
            names_operation(r.spec_operations(kind, id@).last(), op@),
            forall|k: EntityKind, i: Seq<char>| !(k == kind && i == id@) ==> #[trigger] r.spec_operations(k, i)
                == self.spec_operations(k, i),
            r.spec_records() == self.spec_records(),
            r.spec_next() == self.spec_next(),
    {
        proof {
            use_type_invariant(&self);
        }
        let def = OperationDef { id: owned(op), name: owned(op), description: None };
        let ghost d = def;
        let mut m = self;
        match kind {
            EntityKind::Area => {
                let mut list = Vec::new();
                std::mem::swap(&mut list, &mut m.areas);
                add_operation(&mut list, id, def);
                m.areas = list;
            },
            EntityKind::Component => {
                let mut list = Vec::new();
                std::mem::swap(&mut list, &mut m.components);
                add_operation(&mut list, id, def);
                m.components = list;
            },
            EntityKind::Function => {
                let mut list = Vec::new();
                std::mem::swap(&mut list, &mut m.functions);
                add_operation(&mut list, id, def);
                m.functions = list;
            },
            EntityKind::App => {
                let mut list = Vec::new();
                std::mem::swap(&mut list, &mut m.apps);
                add_operation(&mut list, id, def);
                m.apps = list;
            },
        }
        proof {
            assert(d.id@ == op@ && d.name@ == op@);
        }
        m
    }

    /// Whether operation `op` is registered on `target`.
    fn has_operation(&self, target: &ResourceRef, op: &str) -> (r: bool)
        ensures
            r == self.spec_has_operation(target.kind, target.id@, op@),
    {
        let list = match target.kind {
            EntityKind::Area => &self.areas,
            EntityKind::Component => &self.components,
            EntityKind::Function => &self.functions,
            EntityKind::App => &self.apps,
        };
        match assoc_position(list, target.id.as_str()) {
            Some(p) => {
                let ops = &list[p].1;
                assert(ops@ == self.spec_operations(target.kind, target.id@));
                let mut i: usize = 0;
                while i < ops.len()
                    invariant
                        i <= ops@.len(),
                        ops@ == self.spec_operations(target.kind, target.id@),
                        forall|k: int| 0 <= k < i ==> ops@[k].id@ != op@,
                    decreases ops@.len() - i,
                {
                    if str_eq(ops[i].id.as_str(), op) {
                        assert(ops@[i as int].id@ == op@);
                        return true;
                    }
                    i = i + 1;
                }
                false
            },
            None => false,
        }
    }
}

/// Append `def` to the operations of resource `id` in one kind's catalogue,
/// opening an entry for the resource if it has none yet.
fn add_operation(list: &mut Vec<(String, Vec<OperationDef>)>, id: &str, def: OperationDef)
    ensures
        forall|i: Seq<char>| #[trigger]
            operations_of(final(list)@, i) == if i == id@ {
                operations_of(old(list)@, i).push(def)
            } else {
                operations_of(old(list)@, i)
            },
{
    let ghost before = list@;
    match assoc_position(list, id) {
        Some(p) => {
            let (key, mut ops) = list.remove(p);
            ops.push(def);
            let e = (key, ops);
            list.insert(p, e);
            proof {
                assert(list@ =~= before.update(p as int, e));
                assert forall|i: Seq<char>| #[trigger] assoc_lookup(list@, i) == if i == id@ {
                    Some(e.1)
                } else {
                    assoc_lookup(before, i)
                } by {
                    lemma_lookup_update(before, p as int, id@, e, i);
                }
            }
        },
        None => {
            let mut ops: Vec<OperationDef> = Vec::new();
            ops.push(def);
            let e = (owned(id), ops);
            list.push(e);
            proof {
                assert forall|i: Seq<char>| #[trigger] assoc_lookup(list@, i) == if i == id@ {
                    Some(e.1)
                } else {
                    assoc_lookup(before, i)
                } by {
                    lemma_lookup_push(before, e, i);
                }
            }
        },
    }
}

impl ActionSink for SimActionSink {
    fn operations(&self, target: &ResourceRef) -> (r: Vec<OperationDef>)
        ensures
            r@ == self.spec_operations(target.kind, target.id@),
    {
        let list = match target.kind {
            EntityKind::Area => &self.areas,
            EntityKind::Component => &self.components,
            EntityKind::Function => &self.functions,
            EntityKind::App => &self.apps,
        };
        match assoc_position(list, target.id.as_str()) {
            Some(p) => copy_operations(&list[p].1),
            None => Vec::new(),
        }
    }

    fn start_operation(&mut self, target: &ResourceRef, op: &str, args: Value) -> (r: Result<Execution, ActionError>)
        ensures
            forall|k: EntityKind, i: Seq<char>| #[trigger] final(self).spec_operations(k, i)
                == old(self).spec_operations(k, i),
            old(self).spec_has_operation(target.kind, target.id@, op@) ==> match r {
                Ok(e) => {
                    &&& e.id@ == execution_id(old(self).spec_next())
                    &&& e.operation_id@ == op@
                    &&& e.status == ExecutionStatus::Completed
                    &&& e.result == Some(json_object_of(seq![("echo"@, args)]))
                    &&& final(self).spec_records() == old(self).spec_records().insert(
                        e.id@,
                        (ExecRecord { kind: target.kind, target: target.id, execution: e }),
                    )
                    &&& final(self).spec_next() == next_count(old(self).spec_next())
                },
                Err(_) => false,
            },
            !old(self).spec_has_operation(target.kind, target.id@, op@) ==> {
                &&& r == Err::<Execution, ActionError>(ActionError::NotFound)
                &&& final(self).spec_records() == old(self).spec_records()
                &&& final(self).spec_next() == old(self).spec_next()
            },
    {
        proof {
            use_type_invariant(&*self);
        }
        if !self.has_operation(target, op) {
            return Err(ActionError::NotFound);
        }
        let mut id = owned("exec-");
        push_decimal(&mut id, self.next);
        self.next = if self.next == u64::MAX { 0 } else { self.next + 1 };
        let mut members: Vec<(String, Value)> = Vec::new();
        members.push((owned("echo"), args));
        proof {
            assert(members_view(members@) =~= seq![("echo"@, args)]);
        }
        let result = json_object(members);
        let execution = Execution {
            id: id.clone(),
            operation_id: owned(op),
            status: ExecutionStatus::Completed,
            result: Some(result),
        };
        let rec = ExecRecord { kind: target.kind, target: target.id.clone(), execution: execution.duplicate() };
        let ghost before = sorted_map(self.records@);
        let mut recs: Vec<(String, ExecRecord)> = Vec::new();
        proof {
            assert(sorted_map(recs@) =~= Map::<Seq<char>, ExecRecord>::empty());
        }
        std::mem::swap(&mut recs, &mut self.records);
        insert_sorted(&mut recs, id, rec);
        proof {
            assert(sorted_map(recs@) == before.insert(execution.id@, rec));
        }
        self.records = recs;
        Ok(execution)
    }

    fn executions(&self, target: &ResourceRef, op: &str) -> (r: Result<Vec<Execution>, ActionError>)
        ensures
            match r {
                Ok(v) => self.spec_has_operation(target.kind, target.id@, op@) && lists_executions(
                    self.spec_records(),
                    target.kind,
                    target.id@,
                    op@,
                    v@,
                ),
                Err(e) => e == ActionError::NotFound && !self.spec_has_operation(target.kind, target.id@, op@),
            },
    {
        proof {
            use_type_invariant(self);
        }
        if !self.has_operation(target, op) {
            return Err(ActionError::NotFound);
        }
        let ghost recs = self.records@;
        let ghost m = sorted_map(recs);
        proof {
            assert forall|i: int| 0 <= i < recs.len() implies (#[trigger] recs[i]).1.execution.id@ == recs[i].0@ by {
                lemma_sorted_map_at(recs, i);
            }
        }
        let n = self.records.len();
        let mut out: Vec<Execution> = Vec::new();
        let ghost mut pos: Seq<int> = Seq::empty();
        let mut j: usize = 0;
        while j < n
            invariant
                n == recs.len(),
                recs == self.records@,
                j <= n,
                keys_sorted(recs),
                forall|i: int| 0 <= i < recs.len() ==> (#[trigger] recs[i]).1.execution.id@ == recs[i].0@,
                pos.len() == out@.len(),
                forall|a: int|
                    0 <= a < pos.len() ==> 0 <= #[trigger] pos[a] < j && out@[a] == recs[pos[a]].1.execution
                        && record_matches(recs[pos[a]].1, target.kind, target.id@, op@),
                forall|a: int, b: int| 0 <= a < b < pos.len() ==> #[trigger] pos[a] < #[trigger] pos[b],
                forall|i: int|
                    0 <= i < j && record_matches(#[trigger] recs[i].1, target.kind, target.id@, op@) ==> exists|a: int|
                        0 <= a < pos.len() && pos[a] == i,
            decreases n - j,
        {
            let rec = &self.records[j].1;
            let ghost old_pos = pos;
            if rec.kind == target.kind && str_eq(rec.target.as_str(), target.id.as_str()) && str_eq(
                rec.execution.operation_id.as_str(),
                op,
            ) {
                out.push(rec.execution.duplicate());
                proof {
                    pos = pos.push(j as int);
                    assert(pos[pos.len() - 1] == j);
                }
            }
            proof {
                assert forall|i: int|
                    0 <= i < j + 1 && record_matches(#[trigger] recs[i].1, target.kind, target.id@, op@) implies exists|a: int|
                    0 <= a < pos.len() && pos[a] == i by {
                    if i == j {
                        assert(pos[pos.len() - 1] == i);
                    } else {
                        let a = choose|a: int| 0 <= a < old_pos.len() && old_pos[a] == i;
                        assert(pos[a] == i);
                    }
                }
            }
            j = j + 1;
        }
        proof {
            let v = out@;
            assert forall|a: int, b: int| 0 <= a < b < v.len() implies seq_less(#[trigger] v[a].id@, #[trigger] v[b].id@) by {
                assert(pos[a] < pos[b]);
            }
            assert forall|a: int| 0 <= a < v.len() implies holds_execution(m, target.kind, target.id@, op@, #[trigger] v[a].id@)
                && m[v[a].id@].execution == v[a] by {
                lemma_sorted_map_at(recs, pos[a]);
            }
            assert forall|k: Seq<char>| #[trigger] holds_execution(m, target.kind, target.id@, op@, k) implies exists|a: int|
                0 <= a < v.len() && #[trigger] v[a].id@ == k by {
                let i = choose|i: int| 0 <= i < recs.len() && #[trigger] recs[i].0@ == k;
                lemma_sorted_map_at(recs, i);
                assert(record_matches(recs[i].1, target.kind, target.id@, op@));
                let a = choose|a: int| 0 <= a < pos.len() && pos[a] == i;
                assert(v[a].id@ == k);
            }
        }
        Ok(out)
    }

    fn execution(&self, target: &ResourceRef, op: &str, exec_id: &str) -> (r: Result<Execution, ActionError>)
        ensures
            match r {
                Ok(e) => holds_execution(self.spec_records(), target.kind, target.id@, op@, exec_id@)
                    && e == self.spec_records()[exec_id@].execution,
                Err(e) => e == ActionError::NotFound && !holds_execution(
                    self.spec_records(),
                    target.kind,
                    target.id@,
                    op@,
                    exec_id@,
                ),
            },
    {
        proof {
            use_type_invariant(self);
        }
        match sorted_position(&self.records, exec_id) {
            Some(i) => {
                let rec = &self.records[i].1;
                if rec.kind == target.kind && str_eq(rec.target.as_str(), target.id.as_str()) && str_eq(
                    rec.execution.operation_id.as_str(),
                    op,
                ) {
                    Ok(rec.execution.duplicate())
                } else {
                    Err(ActionError::NotFound)
                }
            },
            None => Err(ActionError::NotFound),
        }
    }

    fn cancel_execution(&mut self, target: &ResourceRef, op: &str, exec_id: &str) -> (r: Result<(), ActionError>)
        ensures
            forall|k: EntityKind, i: Seq<char>| #[trigger] final(self).spec_operations(k, i)
                == old(self).spec_operations(k, i),
            final(self).spec_next() == old(self).spec_next(),
            holds_execution(old(self).spec_records(), target.kind, target.id@, op@, exec_id@) ==> {
                &&& r is Ok
                &&& final(self).spec_records() == old(self).spec_records().remove(exec_id@)
            },
            !holds_execution(old(self).spec_records(), target.kind, target.id@, op@, exec_id@) ==> {
                &&& r == Err::<(), ActionError>(ActionError::NotFound)
                &&& final(self).spec_records() == old(self).spec_records()
            },
    {
        proof {
            use_type_invariant(&*self);
        }
        match sorted_position(&self.records, exec_id) {
            Some(i) => {
                let rec = &self.records[i].1;
                if rec.kind == target.kind && str_eq(rec.target.as_str(), target.id.as_str()) && str_eq(
                    rec.execution.operation_id.as_str(),
                    op,
                ) {
                    let ghost before = sorted_map(self.records@);
                    let mut recs: Vec<(String, ExecRecord)> = Vec::new();
                    proof {
                        assert(sorted_map(recs@) =~= Map::<Seq<char>, ExecRecord>::empty());
                    }
                    std::mem::swap(&mut recs, &mut self.records);
                    let _gone = remove_sorted(&mut recs, i);
                    proof {
                        assert(sorted_map(recs@) == before.remove(exec_id@));
                    }
                    self.records = recs;
                    Ok(())
                } else {
                    Err(ActionError::NotFound)
                }
            },
            None => Err(ActionError::NotFound),
        }
    }
}

/// An execution started on operation `op` of resource `(kind, id)` is then
/// found by its id, and every listing of that operation's executions holds it.
pub proof fn law_started_is_found(
    before: Map<Seq<char>, ExecRecord>,
    kind: EntityKind,
    id: Seq<char>,
    op: Seq<char>,
    rec: ExecRecord,
    listing: Seq<Execution>,
)
    requires
        record_matches(rec, kind, id, op),
        lists_executions(before.insert(rec.execution.id@, rec), kind, id, op, listing),
    ensures
        holds_execution(before.insert(rec.execution.id@, rec), kind, id, op, rec.execution.id@),
        before.insert(rec.execution.id@, rec)[rec.execution.id@].execution == rec.execution,
        exists|a: int| 0 <= a < listing.len() && listing[a] == rec.execution,
{
    let after = before.insert(rec.execution.id@, rec);
    let k = rec.execution.id@;
    assert(holds_execution(after, kind, id, op, k));
    let a = choose|a: int| 0 <= a < listing.len() && #[trigger] listing[a].id@ == k;
    assert(after[listing[a].id@].execution == listing[a]);
}

/// A cancelled execution is gone: nothing finds it under its id any more.
pub proof fn law_cancelled_is_gone(
    before: Map<Seq<char>, ExecRecord>,
    kind: EntityKind,
    id: Seq<char>,
    op: Seq<char>,
    exec_id: Seq<char>,
)
    ensures
        !holds_execution(before.remove(exec_id), kind, id, op, exec_id),
{
}

/// An execution belongs to one operation: looking it up under another
/// operation of the same resource finds nothing.
pub proof fn law_other_operation_misses(
    records: Map<Seq<char>, ExecRecord>,
    kind: EntityKind,
    id: Seq<char>,
    op: Seq<char>,
    other: Seq<char>,
    exec_id: Seq<char>,
)
    requires
        holds_execution(records, kind, id, op, exec_id),
        op != other,
    ensures
        !holds_execution(records, kind, id, other, exec_id),
{
}

/// The position of the first catalogue entry with id `op`, or the length when
/// there is none.
pub open spec fn first_operation(ops: Seq<OperationDef>, op: Seq<char>) -> int
    decreases ops.len(),
{
    if ops.len() == 0 {
        0
    } else if ops[0].id@ == op {
        0
    } else {
        1 + first_operation(ops.skip(1), op)
    }
}

proof fn lemma_first_operation(ops: Seq<OperationDef>, op: Seq<char>)
    ensures
        0 <= first_operation(ops, op) <= ops.len(),
        first_operation(ops, op) < ops.len() ==> ops[first_operation(ops, op)].id@ == op,
        forall|k: int| 0 <= k < first_operation(ops, op) ==> ops[k].id@ != op,
    decreases ops.len(),
{
    if ops.len() > 0 && ops[0].id@ != op {
        lemma_first_operation(ops.skip(1), op);
        assert forall|k: int| 0 <= k < first_operation(ops, op) implies ops[k].id@ != op by {
            if k > 0 {
                assert(ops.skip(1)[k - 1] == ops[k]);
            }
        }
    }
}

/// The catalogue entry with id `op` among `operations` (the first, should
/// there be several), or the `404` of an unknown operation on `target`.
pub fn operation_def(operations: &Vec<OperationDef>, target: &ResourceRef, op: &str) -> (r: Result<OperationDef, ApiError>)
    ensures
        first_operation(operations@, op@) < operations@.len() ==> r == Ok::<OperationDef, ApiError>(
            operations@[first_operation(operations@, op@)],
        ),
        first_operation(operations@, op@) == operations@.len() ==> (r matches Err(ApiError::NotFound(g)) && error_is(
            g,
            "not-found"@,
            "Operation or execution not found"@,
            target_params(target.kind, target.id@, None),
        )),
{
    proof {
        lemma_first_operation(operations@, op@);
    }
    let mut i: usize = 0;
    while i < operations.len()
        invariant
            i <= operations@.len(),
            forall|k: int| 0 <= k < i ==> operations@[k].id@ != op@,
            0 <= first_operation(operations@, op@) <= operations@.len(),
            first_operation(operations@, op@) < operations@.len() ==> operations@[first_operation(operations@, op@)].id@
                == op@,
            forall|k: int| 0 <= k < first_operation(operations@, op@) ==> operations@[k].id@ != op@,
        decreases operations@.len() - i,
    {
        if str_eq(operations[i].id.as_str(), op) {
            return Ok(operations[i].duplicate());
        }
        i = i + 1;
    }
    Err(action_error(ActionError::NotFound, target.kind, target.id.as_str()))
}

} // verus!
