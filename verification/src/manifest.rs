//! The Area/Component grouping manifest: the declared skeleton the entity tree
//! groups under, plus the mappings that re-parent the raw binding entities
//! (`app:<task>`, `component:<subdevice>`) into it.
//!
//! A manifest is built with [`Manifest::builder`]; an empty manifest tells the
//! merge pipeline to keep the flat provider grouping.
//!
//! The task and subdevice mappings are association lists with one entry per
//! key: mapping a key again replaces its target.

use vstd::prelude::*;
use crate::model::{Entity, EntityKind, EntityMeta, EntityMetaView, EntityView, entity_views};
use crate::assoc::{
    assoc_lookup, assoc_position, lemma_lookup_absent, lemma_lookup_at, lemma_lookup_push, lemma_lookup_update,
};
use crate::text::{append_str, is_prefix, owned, strip_prefix};
use crate::view::{collection_segment, kind_collection};

verus! {

/// The id prefix a binding emits a per-task app entity under (`app:<task>`).
pub const APP_PREFIX: &'static str = "app:";

/// The id prefix a binding emits a per-subdevice component entity under
/// (`component:<subdevice>`).
pub const SUBDEVICE_PREFIX: &'static str = "component:";

/// The `source` tag stamped on the `x-medkit` of manifest-declared entities.
pub const MANIFEST_SOURCE: &'static str = "manifest";

/// A declared Area: a top-level grouping the components hang under.
#[derive(Clone, Debug, PartialEq, Eq)]
pub struct Area {
    /// Stable entity id (also the `/areas/{id}` path segment).
    pub id: String,
    /// Human-readable name.
    pub name: String,
}

/// A declared Component, parented to a declared [`Area`].
#[derive(Clone, Debug, PartialEq, Eq)]
pub struct Component {
    /// Stable entity id (also the `/components/{id}` path segment).
    pub id: String,
    /// The id of the [`Area`] this component groups under.
    pub area: String,
    /// Human-readable name.
    pub name: String,
}

/// The target an association list of string pairs gives `key`.
pub open spec fn assoc_get(entries: Seq<(String, String)>, key: Seq<char>) -> Option<Seq<char>> {
    opt_string_view(assoc_lookup(entries, key))
}

/// The Area/Component grouping skeleton plus the entity-to-parent mappings.
#[derive(Clone, Debug, PartialEq, Eq)]
pub struct Manifest {
    areas: Vec<Area>,
    components: Vec<Component>,
    /// task id -> parent entity id.
    tasks: Vec<(String, String)>,
    /// subdevice address -> component id.
    subdevices: Vec<(String, String)>,
}

impl Manifest {
    /// The declared areas, in declaration order.
    pub closed spec fn areas_view(&self) -> Seq<Area> {
        self.areas@
    }

    /// The declared components, in declaration order.
    pub closed spec fn components_view(&self) -> Seq<Component> {
        self.components@
    }

    /// The parent a task id is mapped onto, if any.
    pub closed spec fn task_parent(&self, task: Seq<char>) -> Option<Seq<char>> {
        assoc_get(self.tasks@, task)
    }

    /// The component a subdevice address is mapped onto, if any.
    pub closed spec fn subdevice_parent(&self, addr: Seq<char>) -> Option<Seq<char>> {
        assoc_get(self.subdevices@, addr)
    }

    /// Whether the manifest declares and maps nothing.
    pub closed spec fn spec_is_empty(&self) -> bool {
        &&& self.areas@.len() == 0
        &&& self.components@.len() == 0
        &&& self.tasks@.len() == 0
        &&& self.subdevices@.len() == 0
    }

    /// Whether the manifest declares no area or component and maps no task or
    /// subdevice.
    pub open spec fn maps_nothing(&self) -> bool {
        &&& self.areas_view().len() == 0
        &&& self.components_view().len() == 0
        &&& forall|t: Seq<char>| #[trigger] self.task_parent(t) is None
        &&& forall|a: Seq<char>| #[trigger] self.subdevice_parent(a) is None
    }

    /// Declaring and mapping nothing is what emptiness is.
    pub proof fn lemma_empty_maps_nothing(&self)
        ensures
            self.spec_is_empty() <==> self.maps_nothing(),
    {
        if self.spec_is_empty() {
            assert forall|t: Seq<char>| #[trigger] self.task_parent(t) is None by {
                lemma_lookup_absent(self.tasks@, t);
            }
            assert forall|a: Seq<char>| #[trigger] self.subdevice_parent(a) is None by {
                lemma_lookup_absent(self.subdevices@, a);
            }
        }
        if self.maps_nothing() {
            if self.tasks@.len() > 0 {
                lemma_lookup_at(self.tasks@, 0, self.tasks@[0].0@);
                assert(self.task_parent(self.tasks@[0].0@) is Some);
            }
            if self.subdevices@.len() > 0 {
                lemma_lookup_at(self.subdevices@, 0, self.subdevices@[0].0@);
                assert(self.subdevice_parent(self.subdevices@[0].0@) is Some);
            }
        }
    }

    /// Whether the manifest holds exactly the given declarations and mappings.
    pub closed spec fn holds(
        &self,
        areas: Seq<Area>,
        components: Seq<Component>,
        tasks: Seq<(String, String)>,
        subdevices: Seq<(String, String)>,
    ) -> bool {
        &&& self.areas@ == areas
        &&& self.components@ == components
        &&& self.tasks@ == tasks
        &&& self.subdevices@ == subdevices
    }

    /// The empty manifest.
    pub fn new() -> (r: Manifest)
        ensures
            r.spec_is_empty(),
            r.maps_nothing(),
    {
        let r = Manifest { areas: Vec::new(), components: Vec::new(), tasks: Vec::new(), subdevices: Vec::new() };
        proof {
            r.lemma_empty_maps_nothing();
        }
        r
    }

    /// Start a [`ManifestBuilder`] over the empty manifest.
    pub fn builder() -> (r: ManifestBuilder)
        ensures
            r.current().spec_is_empty(),
            r.current().maps_nothing(),
    {
        ManifestBuilder { manifest: Manifest::new() }
    }

    /// Whether the manifest declares nothing. An empty manifest signals the merge
    /// pipeline to fall back to flat grouping rather than re-parenting.
    pub fn is_empty(&self) -> (r: bool)
        ensures
            r == self.spec_is_empty(),
            r == self.maps_nothing(),
    {
        proof {
            self.lemma_empty_maps_nothing();
        }
        self.areas.len() == 0 && self.components.len() == 0 && self.tasks.len() == 0
            && self.subdevices.len() == 0
    }

    /// The declared areas, in declaration order.
    pub fn areas(&self) -> (r: &[Area])
        ensures
            r@ == self.areas_view(),
    {
        self.areas.as_slice()
    }

    /// The declared components, in declaration order.
    pub fn components(&self) -> (r: &[Component])
        ensures
            r@ == self.components_view(),
    {
        self.components.as_slice()
    }

    /// The re-parent target for a raw provider entity id, if the manifest maps it.
    ///
    /// `app:<task>` resolves through the task mappings, `component:<subdevice>`
    /// through the subdevice mappings; any other id gives `None`.
    pub fn parent_of(&self, raw_id: &str) -> (r: Option<&str>)
        ensures
            opt_str_view(r) == self.spec_parent_of(raw_id@),
    {
        match strip_prefix(raw_id, APP_PREFIX) {
            Some(task) => {
                return assoc_find(&self.tasks, task);
            },
            None => {},
        }
        match strip_prefix(raw_id, SUBDEVICE_PREFIX) {
            Some(addr) => assoc_find(&self.subdevices, addr),
            None => None,
        }
    }

    /// What [`Manifest::parent_of`] gives for a raw id.
    pub open spec fn spec_parent_of(&self, raw: Seq<char>) -> Option<Seq<char>> {
        if is_prefix(APP_PREFIX@, raw) {
            self.task_parent(raw.skip(APP_PREFIX@.len() as int))
        } else if is_prefix(SUBDEVICE_PREFIX@, raw) {
            self.subdevice_parent(raw.skip(SUBDEVICE_PREFIX@.len() as int))
        } else {
            None
        }
    }

    /// The declared skeleton as model entities: every [`Area`] (parentless) then
    /// every [`Component`] (parented to its area), each stamped
    /// `x-medkit.source = "manifest"`.
    pub fn declared_entities(&self) -> (r: Vec<Entity>)
        ensures
            entity_views(r@) == declared_seq(*self),
            r@.len() == self.areas_view().len() + self.components_view().len(),
            forall|i: int|
                0 <= i < self.areas_view().len() ==> #[trigger] is_declared(
                    r@[i],
                    EntityKind::Area,
                    self.areas_view()[i].id@,
                    self.areas_view()[i].name@,
                    None,
                ),
            forall|j: int|
                0 <= j < self.components_view().len() ==> #[trigger] is_declared(
                    r@[self.areas_view().len() + j],
                    EntityKind::Component,
                    self.components_view()[j].id@,
                    self.components_view()[j].name@,
                    Some(self.components_view()[j].area@),
                ),
    {
        let mut entities: Vec<Entity> = Vec::new();
        let na = self.areas.len();
        let mut i: usize = 0;
        while i < na
            invariant
                na == self.areas@.len(),
                i <= na,
                entities@.len() == i,
                forall|k: int|
                    0 <= k < i ==> #[trigger] is_declared(
                        entities@[k],
                        EntityKind::Area,
                        self.areas@[k].id@,
                        self.areas@[k].name@,
                        None,
                    ),
            decreases na - i,
        {
            let area = &self.areas[i];
            entities.push(declared_entity(EntityKind::Area, &area.id, &area.name, None));
            i = i + 1;
        }
        let nc = self.components.len();
        let mut j: usize = 0;
        while j < nc
            invariant
                na == self.areas@.len(),
                nc == self.components@.len(),
                j <= nc,
                entities@.len() == na + j,
                forall|k: int|
                    0 <= k < na ==> #[trigger] is_declared(
                        entities@[k],
                        EntityKind::Area,
                        self.areas@[k].id@,
                        self.areas@[k].name@,
                        None,
                    ),
                forall|k: int|
                    0 <= k < j ==> #[trigger] is_declared(
                        entities@[na + k],
                        EntityKind::Component,
                        self.components@[k].id@,
                        self.components@[k].name@,
                        Some(self.components@[k].area@),
                    ),
            decreases nc - j,
        {
            let c = &self.components[j];
            let parent = Some(owned(c.area.as_str()));
            entities.push(declared_entity(EntityKind::Component, &c.id, &c.name, parent));
            j = j + 1;
        }
        proof {
            assert forall|i: int| 0 <= i < entities@.len() implies entity_views(entities@)[i]
                == declared_seq(*self)[i] by {
                if i < na {
                    assert(is_declared(entities@[i], EntityKind::Area, self.areas@[i].id@, self.areas@[i].name@, None));
                } else {
                    let k = i - na;
                    assert(is_declared(
                        entities@[na + k],
                        EntityKind::Component,
                        self.components@[k].id@,
                        self.components@[k].name@,
                        Some(self.components@[k].area@),
                    ));
                }
            }
            assert(entity_views(entities@) =~= declared_seq(*self));
        }
        entities
    }
}

/// A manifest declaring and mapping nothing.
impl Default for Manifest {
    fn default() -> (r: Manifest)
        ensures
            r.spec_is_empty(),
            r.maps_nothing(),
    {
        Manifest::new()
    }
}

/// The characters of an optional string slice.
pub open spec fn opt_str_view(o: Option<&str>) -> Option<Seq<char>> {
    match o {
        Some(s) => Some(s@),
        None => None,
    }
}

/// The characters of an optional string.
pub open spec fn opt_string_view(o: Option<String>) -> Option<Seq<char>> {
    match o {
        Some(s) => Some(s@),
        None => None,
    }
}

/// The declared-skeleton entity of `kind` with this id, name and parent: self
/// link `/api/v1/{collection}/{id}`, no description, and an `x-medkit` carrying
/// only `source = "manifest"`.
pub open spec fn declared_view(
    kind: EntityKind,
    id: Seq<char>,
    name: Seq<char>,
    parent: Option<Seq<char>>,
) -> EntityView {
    EntityView {
        href: "/api/v1/"@ + kind_collection(kind) + "/"@ + id,
        id,
        name,
        kind,
        parent_id: parent,
        description: None,
        x_medkit: Some(
            EntityMetaView { component_id: None, is_online: None, ros2: None, source: Some(MANIFEST_SOURCE@) },
        ),
    }
}

/// Whether `e` is the declared-skeleton entity of `kind` with this id, name and
/// parent.
pub open spec fn is_declared(
    e: Entity,
    kind: EntityKind,
    id: Seq<char>,
    name: Seq<char>,
    parent: Option<Seq<char>>,
) -> bool {
    e@ == declared_view(kind, id, name, parent)
}

/// The declared skeleton of a manifest: every area, then every component.
pub open spec fn declared_seq(m: Manifest) -> Seq<EntityView> {
    Seq::new(
        m.areas_view().len() + m.components_view().len(),
        |i: int|
            if i < m.areas_view().len() {
                declared_view(EntityKind::Area, m.areas_view()[i].id@, m.areas_view()[i].name@, None)
            } else {
                let c = m.components_view()[i - m.areas_view().len()];
                declared_view(EntityKind::Component, c.id@, c.name@, Some(c.area@))
            },
    )
}

/// Build a manifest entity with the declared-skeleton decoration.
fn declared_entity(kind: EntityKind, id: &String, name: &String, parent_id: Option<String>) -> (r:
    Entity)
    ensures
        is_declared(r, kind, id@, name@, opt_string_view(parent_id)),
{
    let mut href = owned("/api/v1/");
    append_str(&mut href, collection_segment(kind));
    append_str(&mut href, "/");
    append_str(&mut href, id.as_str());
    let meta = EntityMeta {
        component_id: None,
        is_online: None,
        ros2: None,
        source: Some(owned(MANIFEST_SOURCE)),
    };
    Entity {
        href,
        id: owned(id.as_str()),
        name: owned(name.as_str()),
        kind,
        parent_id,
        description: None,
        x_medkit: Some(meta),
    }
}

/// The target of `key` in `entries`, borrowed from the list.
fn assoc_find<'a>(entries: &'a Vec<(String, String)>, key: &str) -> (r: Option<&'a str>)
    ensures
        opt_str_view(r) == assoc_get(entries@, key@),
{
    match assoc_position(entries, key) {
        Some(i) => Some(entries[i].1.as_str()),
        None => None,
    }
}

/// Map `key` onto `target`, replacing an earlier mapping of the same key.
fn assoc_insert(entries: &mut Vec<(String, String)>, key: &str, target: &str)
    ensures
        forall|probe: Seq<char>|
            #![trigger assoc_get(final(entries)@, probe)]
            assoc_get(final(entries)@, probe) == if probe == key@ {
                Some(target@)
            } else {
                assoc_get(old(entries)@, probe)
            },
{
    let e = (owned(key), owned(target));
    let ghost before = entries@;
    match assoc_position(entries, key) {
        Some(i) => {
            entries.set(i, e);
            proof {
                assert forall|probe: Seq<char>| #[trigger]
                    assoc_get(entries@, probe) == if probe == key@ {
                        Some(target@)
                    } else {
                        assoc_get(before, probe)
                    } by {
                    lemma_lookup_update(before, i as int, key@, e, probe);
                }
            }
        },
        None => {
            entries.push(e);
            proof {
                assert forall|probe: Seq<char>| #[trigger]
                    assoc_get(entries@, probe) == if probe == key@ {
                        Some(target@)
                    } else {
                        assoc_get(before, probe)
                    } by {
                    lemma_lookup_push(before, e, probe);
                }
            }
        },
    }
}

/// A fluent builder for a [`Manifest`].
#[derive(Clone, Debug)]
pub struct ManifestBuilder {
    manifest: Manifest,
}

impl ManifestBuilder {
    /// The manifest built so far.
    pub closed spec fn current(&self) -> Manifest {
        self.manifest
    }

    /// Declare an [`Area`] with the given id and name.
    pub fn area(self, id: &str, name: &str) -> (r: ManifestBuilder)
        ensures
            r.current().areas_view().len() == self.current().areas_view().len() + 1,
            r.current().areas_view().drop_last() == self.current().areas_view(),
            r.current().areas_view().last().id@ == id@,
            r.current().areas_view().last().name@ == name@,
            r.current().components_view() == self.current().components_view(),
            forall|t: Seq<char>| #[trigger]
                r.current().task_parent(t) == self.current().task_parent(t),
            forall|a: Seq<char>| #[trigger]
                r.current().subdevice_parent(a) == self.current().subdevice_parent(a),
    {
        let mut m = self.manifest;
        m.areas.push(Area { id: owned(id), name: owned(name) });
        ManifestBuilder { manifest: m }
    }

    /// Declare a [`Component`] under the area `area`.
    pub fn component(self, id: &str, area: &str, name: &str) -> (r: ManifestBuilder)
        ensures
            r.current().components_view().len() == self.current().components_view().len() + 1,
            r.current().components_view().drop_last() == self.current().components_view(),
            r.current().components_view().last().id@ == id@,
            r.current().components_view().last().area@ == area@,
            r.current().components_view().last().name@ == name@,
            r.current().areas_view() == self.current().areas_view(),
            forall|t: Seq<char>| #[trigger]
                r.current().task_parent(t) == self.current().task_parent(t),
            forall|a: Seq<char>| #[trigger]
                r.current().subdevice_parent(a) == self.current().subdevice_parent(a),
    {
        let mut m = self.manifest;
        m.components.push(Component { id: owned(id), area: owned(area), name: owned(name) });
        ManifestBuilder { manifest: m }
    }

    /// Map the raw `app:<task_id>` entity onto the parent entity `parent`.
    pub fn map_task(self, task_id: &str, parent: &str) -> (r: ManifestBuilder)
        ensures
            forall|t: Seq<char>| #[trigger]
                r.current().task_parent(t) == if t == task_id@ {
                    Some(parent@)
                } else {
                    self.current().task_parent(t)
                },
            r.current().areas_view() == self.current().areas_view(),
            r.current().components_view() == self.current().components_view(),
            forall|a: Seq<char>| #[trigger]
                r.current().subdevice_parent(a) == self.current().subdevice_parent(a),
            !r.current().spec_is_empty(),
    {
        let mut m = self.manifest;
        assoc_insert(&mut m.tasks, task_id, parent);
        proof {
            assert(assoc_get(m.tasks@, task_id@) is Some);
        }
        ManifestBuilder { manifest: m }
    }

    /// Map the raw `component:<addr>` subdevice entity onto the declared
    /// `component`.
    pub fn map_subdevice(self, addr: &str, component: &str) -> (r: ManifestBuilder)
        ensures
            forall|a: Seq<char>| #[trigger]
                r.current().subdevice_parent(a) == if a == addr@ {
                    Some(component@)
                } else {
                    self.current().subdevice_parent(a)
                },
            r.current().areas_view() == self.current().areas_view(),
            r.current().components_view() == self.current().components_view(),
            forall|t: Seq<char>| #[trigger]
                r.current().task_parent(t) == self.current().task_parent(t),
            !r.current().spec_is_empty(),
    {
        let mut m = self.manifest;
        assoc_insert(&mut m.subdevices, addr, component);
        proof {
            assert(assoc_get(m.subdevices@, addr@) is Some);
        }
        ManifestBuilder { manifest: m }
    }

    /// Finish building.
    pub fn build(self) -> (r: Manifest)
        ensures
            r == self.current(),
    {
        self.manifest
    }
}

/// A failure loading a [`Manifest`] from its TOML form, carrying the
/// underlying cause's message.
#[derive(Clone, Debug, PartialEq, Eq)]
pub enum ManifestError {
    /// The manifest file could not be read.
    Io(String),
    /// The manifest contents were not the expected TOML shape.
    Parse(String),
}

impl ManifestError {
    /// The human-readable rendering: `reading manifest: {cause}` or
    /// `parsing manifest TOML: {cause}`.
    pub fn message(&self) -> (r: String)
        ensures
            r@ == match self {
                ManifestError::Io(e) => "reading manifest: "@ + e@,
                ManifestError::Parse(e) => "parsing manifest TOML: "@ + e@,
            },
    {
        match self {
            ManifestError::Io(e) => {
                let mut s = owned("reading manifest: ");
                append_str(&mut s, e.as_str());
                s
            },
            ManifestError::Parse(e) => {
                let mut s = owned("parsing manifest TOML: ");
                append_str(&mut s, e.as_str());
                s
            },
        }
    }
}

} // verus!
