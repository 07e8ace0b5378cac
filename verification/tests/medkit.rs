use serde_json::Value;
use taktora::gateway::Gateway;
use taktora::manifest::{Manifest, ManifestError, MANIFEST_SOURCE};
use taktora::model::{
    Collection, Entity, EntityKind, EntityMeta, EnvironmentData, ExtendedDataRecords, FaultSummary, FreezeFrame,
    FreezeFrameMeta, Health, Ros2Ref, Severity,
};
use taktora::provider::{
    severity_to_health, MockProvider, Provider, Relation, ResourceRef,
};
use taktora::view::{
    collection_segment, type_singular, FaultStatusFilter, MergePipeline, MergedView, ResolveError,
};

fn built() -> Manifest {
    Manifest::builder()
        .area("drive", "Drive train")
        .area("sensing", "Sensing")
        .component("nav", "drive", "Navigation")
        .component("lidar", "sensing", "Lidar")
        .map_task("planner", "nav")
        .map_task("controller", "nav")
        .map_subdevice("0x01", "nav")
        .build()
}

#[test]
fn parent_of_resolves_conventions() {
    let manifest = built();
    assert_eq!(manifest.parent_of("app:planner"), Some("nav"));
    assert_eq!(manifest.parent_of("component:0x01"), Some("nav"));
    assert_eq!(manifest.parent_of("app:unmapped"), None);
    assert_eq!(manifest.parent_of("nav"), None);
}

#[test]
fn declared_entities_carry_hierarchy() {
    let entities = built().declared_entities();
    let nav = entities.iter().find(|e| e.id == "nav").expect("declared component nav");
    assert_eq!(nav.kind, EntityKind::Component);
    assert_eq!(nav.parent_id.as_deref(), Some("drive"));
    assert_eq!(
        nav.x_medkit.as_ref().and_then(|m| m.source.as_deref()),
        Some(MANIFEST_SOURCE)
    );

    let drive = entities.iter().find(|e| e.id == "drive").expect("declared area drive");
    assert_eq!(drive.kind, EntityKind::Area);
    assert!(drive.parent_id.is_none());
    assert_eq!(drive.href, "/api/v1/areas/drive");
    assert_eq!(nav.href, "/api/v1/components/nav");
}

#[test]
fn builder_examples_and_remapping() {
    let manifest = Manifest::builder()
        .area("drive", "Drive train")
        .component("nav", "drive", "Navigation")
        .map_task("planner", "nav")
        .map_subdevice("0x01", "nav")
        .build();
    assert_eq!(manifest.parent_of("app:planner"), Some("nav"));
    assert_eq!(manifest.parent_of("component:0x01"), Some("nav"));
    let remapped = Manifest::builder().map_task("planner", "a").map_task("planner", "b").build();
    assert_eq!(remapped.parent_of("app:planner"), Some("b"));
    assert!(Manifest::default().is_empty());
    assert!(!built().is_empty());
    assert_eq!(built().areas().len(), 2);
    assert_eq!(built().components()[1].area, "sensing");
}

#[test]
fn manifest_errors_render_their_cause() {
    assert_eq!(ManifestError::Io("gone".to_owned()).message(), "reading manifest: gone");
    assert_eq!(ManifestError::Parse("bad".to_owned()).message(), "parsing manifest TOML: bad");
}

#[test]
fn health_orders_worst_wins() {
    assert!(Health::Critical > Health::Error);
    assert!(Health::Error > Health::Warning);
    assert!(Health::Warning > Health::Okay);
    assert_eq!(Health::Warning.worst(Health::Error), Health::Error);
    assert_eq!(Health::Critical.worst(Health::Okay), Health::Critical);
}

#[test]
fn severity_wire_value_round_trips() {
    for severity in [Severity::Info, Severity::Warn, Severity::Error, Severity::Critical] {
        assert_eq!(Severity::from_wire_value(severity.wire_value()), Some(severity));
    }
    assert_eq!(Severity::from_wire_value(9), None);
}

#[test]
fn severity_maps_to_health() {
    assert_eq!(severity_to_health(Severity::Info), Health::Okay);
    assert_eq!(severity_to_health(Severity::Warn), Health::Warning);
    assert_eq!(severity_to_health(Severity::Error), Health::Error);
    assert_eq!(severity_to_health(Severity::Critical), Health::Critical);
}

#[test]
fn collection_helper_round_trips() {
    let collection: Collection<Entity> = Collection::new(vec![Entity {
        href: "/api/v1/apps/bt_navigator".to_owned(),
        id: "bt_navigator".to_owned(),
        name: "bt_navigator".to_owned(),
        kind: EntityKind::App,
        parent_id: None,
        description: None,
        x_medkit: None,
    }]);
    assert_eq!(collection.x_medkit.total_count, 1);
    assert!(collection.links.is_none());
}

#[test]
fn relation_segments_round_trip() {
    for r in Relation::all() {
        assert_eq!(Relation::from_segment(r.segment()), Some(r));
    }
    assert_eq!(Relation::IsLocatedOn.segment(), "is-located-on");
    assert_eq!(Relation::from_segment("nope"), None);
    let target = ResourceRef::new(EntityKind::App, "gw");
    assert_eq!(target.id, "gw");
}

fn entity(id: &str, kind: EntityKind, parent: Option<&str>) -> Entity {
    Entity {
        href: format!("/api/v1/{id}"),
        id: id.to_owned(),
        name: id.to_owned(),
        kind,
        parent_id: parent.map(ToOwned::to_owned),
        description: None,
        x_medkit: None,
    }
}

fn fault(code: &str, severity: Severity) -> FaultSummary {
    FaultSummary {
        description: code.to_owned(),
        fault_code: code.to_owned(),
        first_occurred: 0.0f64.to_bits(),
        last_occurred: 0.0f64.to_bits(),
        occurrence_count: 1,
        reporting_sources: vec![],
        severity: severity.wire_value(),
        severity_label: format!("{severity:?}"),
        status: "CONFIRMED".to_owned(),
    }
}

#[test]
fn mock_returns_entities_and_faults() {
    let provider = MockProvider::new()
        .with_entity(Entity {
            href: "/api/v1/components/nav".to_owned(),
            id: "component:nav".to_owned(),
            name: "nav".to_owned(),
            kind: EntityKind::Component,
            parent_id: None,
            description: None,
            x_medkit: None,
        })
        .with_fault("component:nav", fault("STUCK", Severity::Error));

    assert_eq!(provider.entities().len(), 1);
    assert_eq!(provider.faults("component:nav").len(), 1);
    assert_eq!(provider.faults("missing").len(), 0);
    assert_eq!(provider.health("component:nav"), Health::Error);
    assert_eq!(provider.health("missing"), Health::Okay);
}

#[test]
fn mock_health_keeps_the_worst_fault() {
    let provider = MockProvider::new()
        .with_fault("a", fault("X", Severity::Error))
        .with_fault("a", fault("Y", Severity::Warn));
    assert_eq!(provider.health("a"), Health::Error);
    assert_eq!(provider.faults("a").len(), 2);
    let unknown = FaultSummary { severity: 9, ..fault("Z", Severity::Info) };
    let p2 = MockProvider::new().with_fault("b", unknown);
    assert_eq!(p2.health("b"), Health::Okay);
}

fn tree() -> MockProvider {
    MockProvider::new()
        .with_entity(entity("area:root", EntityKind::Area, None))
        .with_entity(entity("component:nav", EntityKind::Component, Some("area:root")))
        .with_entity(entity("app:planner", EntityKind::App, Some("component:nav")))
        .with_entity(entity("app:controller", EntityKind::App, Some("component:nav")))
}

#[test]
fn resolves_entities_and_faults_over_mock() {
    let provider = tree().with_fault("app:planner", fault("STUCK", Severity::Error));
    let gateway = Gateway::new(provider);

    assert_eq!(gateway.entities().x_medkit.total_count, 4);
    assert_eq!(gateway.faults("app:planner").items.len(), 1);
    assert_eq!(gateway.faults("app:controller").items.len(), 0);
}

#[test]
fn health_rolls_up_worst_wins() {
    let provider = tree()
        .with_fault("app:planner", fault("WARMISH", Severity::Warn))
        .with_fault("app:controller", fault("STUCK", Severity::Error));
    let gateway = Gateway::new(provider);

    assert_eq!(gateway.rolled_up_health("app:planner"), Health::Warning);
    assert_eq!(gateway.rolled_up_health("component:nav"), Health::Error);
    assert_eq!(gateway.rolled_up_health("area:root"), Health::Error);
}

#[test]
fn healthy_tree_and_unknown_roll_up_ok() {
    let gateway = Gateway::new(tree());
    assert_eq!(gateway.rolled_up_health("area:root"), Health::Okay);
    assert_eq!(gateway.rolled_up_health("nope"), Health::Okay);
}

#[test]
fn rollup_terminates_on_a_parent_cycle() {
    let provider = MockProvider::new()
        .with_entity(entity("a", EntityKind::Component, Some("b")))
        .with_entity(entity("b", EntityKind::Component, Some("a")))
        .with_fault("b", fault("X", Severity::Critical));
    let gateway = Gateway::new(provider);
    assert_eq!(gateway.rolled_up_health("a"), Health::Critical);
    assert_eq!(gateway.provider().entities().len(), 2);
}

const API_BASE: &str = "/api/v1";

fn app(id: &str) -> Entity {
    Entity {
        href: format!("{API_BASE}/apps/{id}"),
        id: id.to_owned(),
        name: id.to_owned(),
        kind: EntityKind::App,
        parent_id: None,
        description: None,
        x_medkit: Some(EntityMeta {
            is_online: Some(true),
            ros2: Some(Ros2Ref { node: format!("/{id}") }),
            source: Some("heuristic".to_owned()),
            ..EntityMeta::default()
        }),
    }
}

fn component(id: &str) -> Entity {
    Entity {
        href: format!("{API_BASE}/components/{id}"),
        id: id.to_owned(),
        name: id.to_owned(),
        kind: EntityKind::Component,
        parent_id: None,
        description: None,
        x_medkit: None,
    }
}

fn view_fault(code: &str, severity: Severity, status: &str) -> FaultSummary {
    FaultSummary {
        description: code.to_owned(),
        fault_code: code.to_owned(),
        first_occurred: 1_782_600_000.25f64.to_bits(),
        last_occurred: 1_782_661_500.75f64.to_bits(),
        occurrence_count: 7,
        reporting_sources: vec![format!("/{code}")],
        severity: severity.wire_value(),
        severity_label: format!("{severity:?}").to_uppercase(),
        status: status.to_owned(),
    }
}

fn view() -> MergedView {
    let provider = MockProvider::new()
        .with_entity(component("spark"))
        .with_entity(app("gw"))
        .with_relationship("spark", Relation::Hosts, app("gw"))
        .with_fault("gw", view_fault("BRAKE", Severity::Error, "CONFIRMED"))
        .with_fault("spark", view_fault("BRAKE", Severity::Error, "CONFIRMED"))
        .with_fault("spark", view_fault("MOTOR", Severity::Warn, "PREFAILED"))
        .with_data("spark", object(&[("cpu", object(&[("load", Value::from(0.4))]))]));
    MergedView::from_snapshot(provider.snapshot())
}

fn link<'a>(links: &'a [(String, String)], key: &str) -> Option<&'a str> {
    links.iter().find(|(k, _)| k == key).map(|(_, v)| v.as_str())
}

#[test]
fn lists_and_relationships_resolve() {
    let view = view();
    let apps = view.list(EntityKind::App);
    assert_eq!(apps.x_medkit.total_count, 1);
    assert!(apps.links.is_none());

    let hosts = view.relationship(EntityKind::Component, "spark", Relation::Hosts).unwrap();
    assert_eq!(hosts.items.len(), 1);
    let links = hosts.links.unwrap();
    assert_eq!(link(&links, "self"), Some("/api/v1/components/spark/hosts"));
    assert_eq!(link(&links, "component"), Some("/api/v1/components/spark"));

    let depends = view.relationship(EntityKind::Component, "spark", Relation::DependsOn).unwrap();
    assert_eq!(depends.items.len(), 0);
    assert!(depends.links.is_some());
}

#[test]
fn subcomponents_links_via_parent() {
    let links = view()
        .relationship(EntityKind::Component, "spark", Relation::Subcomponents)
        .unwrap()
        .links
        .unwrap();
    assert!(link(&links, "parent").is_some());
    assert!(link(&links, "component").is_none());
}

#[test]
fn unknown_entity_is_not_found() {
    let err = view().relationship(EntityKind::App, "nope", Relation::BelongsTo).unwrap_err();
    let ResolveError::NotFound(error) = err;
    assert_eq!(error.error_code, "entity-not-found");
}

#[test]
fn fault_scopes_and_filters() {
    let view = view();
    assert_eq!(view.global_faults(FaultStatusFilter::All).items.len(), 2);
    assert_eq!(view.global_faults(FaultStatusFilter::Pending).items.len(), 1);

    let comp = view.entity_faults(EntityKind::Component, "spark", FaultStatusFilter::All).unwrap();
    assert_eq!(comp.x_medkit.aggregated, Some(true));
    assert_eq!(comp.x_medkit.aggregation_level.as_deref(), Some("component"));

    let app = view.entity_faults(EntityKind::App, "gw", FaultStatusFilter::All).unwrap();
    assert_eq!(app.x_medkit.source_id.as_deref(), Some("/gw"));
    assert!(app.x_medkit.aggregated.is_none());
}

#[test]
fn component_faults_aggregate_hosted_app_nodes() {
    let view = view();
    let comp = view.entity_faults(EntityKind::Component, "spark", FaultStatusFilter::Confirmed).unwrap();
    assert_eq!(comp.items.len(), 1);
    assert_eq!(comp.x_medkit.count, 1);
    assert_eq!(comp.x_medkit.aggregation_sources, Some(vec!["/gw".to_owned()]));
    assert_eq!(comp.x_medkit.app_count, Some(1));
    assert_eq!(view.aggregation_sources("spark"), vec!["/gw".to_owned()]);
    assert!(view.entity_faults(EntityKind::App, "spark", FaultStatusFilter::All).is_err());
}

#[test]
fn global_faults_walk_entities_in_id_order() {
    let provider = MockProvider::new()
        .with_fault("zeta", view_fault("Z", Severity::Info, "CONFIRMED"))
        .with_fault("alpha", view_fault("A", Severity::Info, "CONFIRMED"))
        .with_fault("mid", view_fault("A", Severity::Warn, "HEALED"));
    let view = MergedView::from_snapshot(provider.snapshot());
    let all = view.global_faults(FaultStatusFilter::All);
    let codes: Vec<&str> = all.items.iter().map(|f| f.fault_code.as_str()).collect();
    assert_eq!(codes, vec!["A", "Z"]);
    assert_eq!(all.items[0].severity, Severity::Info.wire_value());
    assert_eq!(all.x_medkit.muted_count, Some(0));
    let healed = view.global_faults(FaultStatusFilter::Healed);
    assert_eq!(healed.items.len(), 1);
    assert_eq!(healed.items[0].severity, Severity::Warn.wire_value());
}

#[test]
fn fault_lookup_and_delete_check_existence() {
    let view = view();
    let summary = view.fault_summary(EntityKind::App, "gw", "BRAKE").unwrap();
    assert_eq!(summary.occurrence_count, 7);
    assert!(view.delete_fault(EntityKind::App, "gw", "BRAKE").is_ok());
    let ResolveError::NotFound(e) = view.delete_fault(EntityKind::App, "gw", "NOPE").unwrap_err();
    assert_eq!(e.error_code, "fault-not-found");
    let ResolveError::NotFound(e) = view.delete_fault(EntityKind::Area, "gw", "BRAKE").unwrap_err();
    assert_eq!(e.error_code, "entity-not-found");
}

fn iso(bits: u64) -> String {
    taktora::civil::iso8601_millis((f64::from_bits(bits) * 1000.0).round() as i64)
}

#[test]
fn fault_detail_derives_status() {
    let detail = view().fault_detail(EntityKind::App, "gw", "BRAKE", iso).unwrap();
    assert_eq!(detail.item.code, "BRAKE");
    assert_eq!(detail.item.status.confirmed_dtc, "1");
    assert_eq!(detail.item.status.aggregated_status, "active");
    assert!(view().fault_detail(EntityKind::App, "gw", "NOPE", iso).is_err());
}

#[test]
fn fault_detail_renders_occurrences_and_flags() {
    let detail = view().fault_detail(EntityKind::App, "gw", "BRAKE", iso).unwrap();
    assert_eq!(detail.item.status.pending_dtc, "0");
    assert_eq!(detail.item.status.test_failed, "1");
    assert_eq!(
        detail.environment_data.extended_data_records.last_occurrence,
        "2026-06-28T15:45:00.750Z"
    );
    assert!(detail.environment_data.snapshots.is_empty());
    let summary = view().fault_summary(EntityKind::App, "gw", "BRAKE").unwrap();
    let plain: taktora::model::FaultDetail<()> =
        taktora::view::detail_from_summary(&summary, "t0".to_owned(), "t1".to_owned());
    assert_eq!(plain.environment_data.extended_data_records.first_occurrence, "t0");
    let pending = view().fault_detail(EntityKind::Component, "spark", "MOTOR", iso).unwrap();
    assert_eq!(pending.item.status.aggregated_status, "pending");
    assert_eq!(pending.item.status.pending_dtc, "1");
}

fn raw_app(task: &str) -> Entity {
    Entity {
        href: format!("{API_BASE}/apps/app:{task}"),
        id: format!("app:{task}"),
        name: task.to_owned(),
        kind: EntityKind::App,
        parent_id: None,
        description: None,
        x_medkit: Some(EntityMeta {
            component_id: Some("stale".to_owned()),
            is_online: Some(true),
            ros2: Some(Ros2Ref { node: format!("/{task}") }),
            source: Some("heuristic".to_owned()),
        }),
    }
}

fn raw_subdevice(addr: &str) -> Entity {
    Entity {
        href: format!("{API_BASE}/components/component:{addr}"),
        id: format!("component:{addr}"),
        name: addr.to_owned(),
        kind: EntityKind::Component,
        parent_id: None,
        description: None,
        x_medkit: None,
    }
}

fn manifest() -> Manifest {
    Manifest::builder()
        .area("drive", "Drive train")
        .component("nav", "drive", "Navigation")
        .map_task("planner", "nav")
        .map_subdevice("0x01", "nav")
        .build()
}

#[test]
fn manifest_reparents_into_declared_structure() {
    let snapshot = MockProvider::new()
        .with_entity(raw_app("planner"))
        .with_entity(raw_subdevice("0x01"))
        .snapshot();
    let view = MergePipeline::new().with_snapshot(snapshot).with_manifest(manifest()).merge();

    assert_eq!(view.entity("drive").unwrap().kind, EntityKind::Area);
    assert_eq!(view.entity("nav").unwrap().kind, EntityKind::Component);

    let components = view.relationship(EntityKind::Area, "drive", Relation::Components).unwrap();
    assert_eq!(components.items.len(), 1);
    assert_eq!(components.items[0].id, "nav");

    let hosts = view.relationship(EntityKind::Component, "nav", Relation::Hosts).unwrap();
    assert_eq!(hosts.items.len(), 1);
    assert_eq!(hosts.items[0].id, "app:planner");
    assert!(hosts.items[0].x_medkit.as_ref().unwrap().component_id.is_none());

    let subs = view.relationship(EntityKind::Component, "nav", Relation::Subcomponents).unwrap();
    assert_eq!(subs.items.len(), 1);
    assert_eq!(subs.items[0].id, "component:0x01");
}

#[test]
fn empty_manifest_falls_back_to_flat() {
    let snapshot = MockProvider::new().with_entity(raw_app("planner")).snapshot();
    let view = MergePipeline::new().with_snapshot(snapshot).with_manifest(Manifest::default()).merge();

    assert!(view.entity("drive").is_none());
    assert!(view.entity("app:planner").unwrap().parent_id.is_none());
    assert_eq!(view.list(EntityKind::App).items.len(), 1);
    assert!(view.list(EntityKind::Area).items.is_empty());
}

#[test]
fn later_snapshots_win_on_id_collision() {
    let first = MockProvider::new().with_entity(component("c")).with_entity(app("a")).snapshot();
    let mut renamed = component("c");
    renamed.name = "renamed".to_owned();
    let second = MockProvider::new().with_entity(renamed).snapshot();
    let view = MergePipeline::new().with_snapshot(first).with_snapshot(second).merge();
    assert_eq!(view.entity("c").unwrap().name, "renamed");
    assert_eq!(view.list(EntityKind::Component).items.len(), 1);
    assert_eq!(view.list(EntityKind::App).items.len(), 1);
}

#[test]
fn synthesized_edges_do_not_duplicate_supplied_ones() {
    let mut hosted = raw_app("planner");
    hosted.parent_id = None;
    let snapshot = MockProvider::new()
        .with_entity(raw_app("planner"))
        .with_relationship("nav", Relation::Hosts, hosted)
        .snapshot();
    let view = MergedView::from_snapshot_with_manifest(snapshot, Some(manifest()));
    let hosts = view.relationship(EntityKind::Component, "nav", Relation::Hosts).unwrap();
    assert_eq!(hosts.items.len(), 1);
    let contains = view.relationship(EntityKind::Area, "drive", Relation::Contains).unwrap();
    assert_eq!(contains.items.len(), 1);
}

#[test]
fn segments_and_singulars_name_each_kind() {
    assert_eq!(collection_segment(EntityKind::Function), "functions");
    assert_eq!(type_singular(EntityKind::Area), "area");
    assert_eq!(FaultStatusFilter::parse(None), Some(FaultStatusFilter::All));
    assert_eq!(FaultStatusFilter::parse(Some("healed")), Some(FaultStatusFilter::Healed));
    assert_eq!(FaultStatusFilter::parse(Some("bogus")), None);
    assert!(FaultStatusFilter::Pending.matches("PREFAILED"));
    assert!(!FaultStatusFilter::Confirmed.matches("PENDING"));
}

fn object(pairs: &[(&str, Value)]) -> Value {
    let mut m = serde_json::Map::new();
    for (k, v) in pairs {
        m.insert((*k).to_owned(), v.clone());
    }
    Value::Object(m)
}

#[test]
fn data_navigates_topic_path() {
    let view = view();
    assert_eq!(view.data(EntityKind::Component, "spark", Some("cpu/load")).unwrap(), Value::from(0.4));
    assert!(view.data(EntityKind::Component, "spark", Some("cpu/missing")).is_err());
    // Unknown entity has no data tree.
    assert!(view.data(EntityKind::App, "gw", None).unwrap().is_object());
}

#[test]
fn data_resolves_roots_and_refuses_unknown_entities() {
    let view = view();
    let root = view.data(EntityKind::Component, "spark", None).unwrap();
    assert_eq!(root, object(&[("cpu", object(&[("load", Value::from(0.4))]))]));
    assert_eq!(view.data(EntityKind::Component, "spark", Some("")).unwrap(), root);
    assert_eq!(view.data(EntityKind::Component, "spark", Some("//cpu//")).unwrap(), object(&[("load", Value::from(0.4))]));
    let ResolveError::NotFound(e) = view.data(EntityKind::Component, "spark", Some("cpu/missing")).unwrap_err();
    assert_eq!(e.error_code, "data-not-found");
    assert_eq!(e.parameters, vec![("data_id".to_owned(), "cpu/missing".to_owned())]);
    let ResolveError::NotFound(e) = view.data(EntityKind::App, "nope", None).unwrap_err();
    assert_eq!(e.error_code, "entity-not-found");
}

#[test]
fn fault_detail_surfaces_freeze_frame_environment() {
    let payload = object(&[("wkc", Value::from(2)), ("expected_wkc", Value::from(3))]);
    let env = EnvironmentData {
        extended_data_records: ExtendedDataRecords {
            first_occurrence: "2026-06-27T22:40:00.250Z".to_owned(),
            last_occurrence: "2026-06-28T15:45:00.750Z".to_owned(),
        },
        snapshots: vec![FreezeFrame {
            data: payload.clone(),
            name: "freeze_frame_at_confirmation".to_owned(),
            kind: "freeze_frame".to_owned(),
            x_medkit: FreezeFrameMeta {
                captured_at: "2026-06-28T15:45:00.750Z".to_owned(),
                full_data: payload,
                message_type: "diagnostic_msgs/msg/DiagnosticStatus".to_owned(),
                topic: "/diagnostics/brake_state".to_owned(),
            },
        }],
    };

    let provider = MockProvider::new()
        .with_entity(component("spark"))
        .with_fault("spark", view_fault("BRAKE", Severity::Error, "CONFIRMED"))
        .with_fault("spark", view_fault("MOTOR", Severity::Warn, "PREFAILED"))
        .with_fault_environment("spark", "BRAKE", env);
    let view = MergedView::from_snapshot(provider.snapshot());

    // The fault WITH environment data surfaces the real freeze-frame.
    let detail = view.fault_detail(EntityKind::Component, "spark", "BRAKE", iso).unwrap();
    assert_eq!(detail.environment_data.snapshots.len(), 1);
    assert_eq!(detail.environment_data.snapshots[0].kind, "freeze_frame");
    assert_eq!(detail.environment_data.snapshots[0].x_medkit.full_data["wkc"], Value::from(2));
    assert_eq!(
        detail.environment_data.extended_data_records.first_occurrence,
        "2026-06-27T22:40:00.250Z"
    );
    // The DTC `item` still derives from the summary (faults_list contract).
    assert_eq!(detail.item.code, "BRAKE");

    // The fault WITHOUT environment data falls back to the empty shape.
    let plain = view.fault_detail(EntityKind::Component, "spark", "MOTOR", iso).unwrap();
    assert!(plain.environment_data.snapshots.is_empty());
}

#[test]
fn later_snapshots_win_on_data_and_environments() {
    let first = MockProvider::new()
        .with_entity(component("spark"))
        .with_data("spark", Value::from(1))
        .snapshot();
    let second = MockProvider::new().with_data("spark", Value::from(2)).snapshot();
    let view = MergePipeline::new().with_snapshot(first).with_snapshot(second).merge();
    assert_eq!(view.data(EntityKind::Component, "spark", None).unwrap(), Value::from(2));
    let provider = MockProvider::new();
    assert!(provider.fault_environment("spark", "BRAKE").is_none());
}

#[test]
fn an_entity_without_data_has_an_empty_object_root() {
    let view = view();
    assert_eq!(view.data(EntityKind::App, "gw", None).unwrap(), object(&[]));
    let ResolveError::NotFound(e) = view.data(EntityKind::App, "gw", Some("cpu")).unwrap_err();
    assert_eq!(e.error_code, "data-not-found");
    assert_eq!(view.data(EntityKind::App, "gw", Some("/")).unwrap(), object(&[]));
}
