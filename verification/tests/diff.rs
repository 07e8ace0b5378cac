use taktora::diff::{diff_events, fault_index};
use taktora::model::{Entity, EntityKind, EntityMeta, FaultSummary, Ros2Ref, Severity};
use taktora::provider::{MockProvider, Provider};
use taktora::view::MergedView;

fn app(id: &str) -> Entity {
    Entity {
        href: format!("/api/v1/apps/{id}"),
        id: id.to_owned(),
        name: id.to_owned(),
        kind: EntityKind::App,
        parent_id: None,
        description: None,
        x_medkit: Some(EntityMeta {
            ros2: Some(Ros2Ref { node: format!("/{id}") }),
            ..EntityMeta::default()
        }),
    }
}

fn component(id: &str) -> Entity {
    Entity {
        href: format!("/api/v1/components/{id}"),
        id: id.to_owned(),
        name: id.to_owned(),
        kind: EntityKind::Component,
        parent_id: None,
        description: None,
        x_medkit: None,
    }
}

fn fault(code: &str, severity: Severity) -> FaultSummary {
    FaultSummary {
        description: code.to_owned(),
        fault_code: code.to_owned(),
        first_occurred: 1.0f64.to_bits(),
        last_occurred: 2.0f64.to_bits(),
        occurrence_count: 1,
        reporting_sources: vec![],
        severity: severity.wire_value(),
        severity_label: format!("{severity:?}").to_uppercase(),
        status: "CONFIRMED".to_owned(),
    }
}

fn view(faults: &[(&str, Severity)]) -> MergedView {
    let mut provider = MockProvider::new().with_entity(app("gw"));
    for (code, sev) in faults {
        provider = provider.with_fault("gw", fault(code, *sev));
    }
    MergedView::from_snapshot(provider.snapshot())
}

#[test]
fn diff_raises_and_clears_faults() {
    let mut seq = 1u64;
    let healthy = view(&[]);
    let faulted = view(&[("BRAKE", Severity::Error)]);

    let raised = diff_events(&healthy, &faulted, &mut seq);
    assert!(raised.iter().any(|e| e.event.event_type == "fault_raised"
        && e.event.fault.fault_code == "BRAKE"
        && e.event.x_medkit.entity_id == "gw"
        && e.event.x_medkit.entity_type == "apps"));

    let cleared = diff_events(&faulted, &healthy, &mut seq);
    assert!(cleared
        .iter()
        .any(|e| e.event.event_type == "fault_cleared" && e.event.fault.fault_code == "BRAKE"));
}

#[test]
fn diff_emits_health_changed_on_transition() {
    let mut seq = 1u64;
    let ok = view(&[]);
    let err = view(&[("BRAKE", Severity::Error)]);
    let events = diff_events(&ok, &err, &mut seq);
    let health = events
        .iter()
        .find(|e| e.event.event_type == "health_changed")
        .expect("health_changed emitted");
    assert_eq!(health.event.fault.fault_code, "BRAKE");
    assert_eq!(health.event.x_medkit.entity_id, "gw");
}

#[test]
fn diff_of_identical_views_is_empty() {
    let mut seq = 1u64;
    let v = view(&[("BRAKE", Severity::Error)]);
    assert!(diff_events(&v, &v, &mut seq).is_empty());
    assert_eq!(seq, 1);
}

#[test]
fn diff_orders_raised_cleared_then_health_and_numbers_them() {
    let mut seq = 10u64;
    let before = view(&[("A", Severity::Warn), ("B", Severity::Info)]);
    let after = view(&[("B", Severity::Info), ("C", Severity::Critical)]);
    let events = diff_events(&before, &after, &mut seq);
    let kinds: Vec<(&str, &str)> = events
        .iter()
        .map(|e| (e.event.event_type.as_str(), e.event.fault.fault_code.as_str()))
        .collect();
    assert_eq!(
        kinds,
        vec![("fault_raised", "C"), ("fault_cleared", "A"), ("health_changed", "C")]
    );
    let ids: Vec<u64> = events.iter().map(|e| e.id).collect();
    assert_eq!(ids, vec![10, 11, 12]);
    assert_eq!(seq, 13);
    assert_eq!(events[0].event.timestamp, 2.0f64.to_bits());
}

#[test]
fn health_changed_on_clearing_carries_the_previous_worst() {
    let mut seq = 1u64;
    let before = view(&[("A", Severity::Warn), ("Z", Severity::Critical)]);
    let after = view(&[]);
    let events = diff_events(&before, &after, &mut seq);
    let health: Vec<&str> = events
        .iter()
        .filter(|e| e.event.event_type == "health_changed")
        .map(|e| e.event.fault.fault_code.as_str())
        .collect();
    assert_eq!(health, vec!["Z"]);
}

#[test]
fn equal_severity_worst_is_the_last_code() {
    let mut seq = 1u64;
    let before = view(&[]);
    let after = view(&[("B", Severity::Error), ("A", Severity::Error)]);
    let events = diff_events(&before, &after, &mut seq);
    let health = events.iter().find(|e| e.event.event_type == "health_changed").unwrap();
    assert_eq!(health.event.fault.fault_code, "B");
}

#[test]
fn unchanged_health_emits_no_transition() {
    let mut seq = 1u64;
    let before = view(&[("A", Severity::Error)]);
    let after = view(&[("B", Severity::Error)]);
    let events = diff_events(&before, &after, &mut seq);
    assert_eq!(events.len(), 2);
    assert!(events.iter().all(|e| e.event.event_type != "health_changed"));
}

#[test]
fn index_covers_faulted_entities_by_code() {
    let provider = MockProvider::new()
        .with_entity(component("nav"))
        .with_entity(app("gw"))
        .with_entity(app("idle"))
        .with_fault("gw", fault("Z", Severity::Warn))
        .with_fault("gw", fault("A", Severity::Error))
        .with_fault("nav", fault("M", Severity::Info));
    let v = MergedView::from_snapshot(provider.snapshot());
    let idx = fault_index(&v);
    let ids: Vec<&str> = idx.iter().map(|(id, _)| id.as_str()).collect();
    assert_eq!(ids, vec!["gw", "nav"]);
    assert_eq!(idx[0].1.kind, EntityKind::App);
    assert_eq!(idx[1].1.kind, EntityKind::Component);
    let codes: Vec<&str> = idx[0].1.faults.iter().map(|(c, _)| c.as_str()).collect();
    assert_eq!(codes, vec!["A", "Z"]);
}

#[test]
fn sequence_counter_wraps_around() {
    let mut seq = u64::MAX;
    let events = diff_events(&view(&[]), &view(&[("A", Severity::Info)]), &mut seq);
    assert_eq!(events.len(), 1);
    assert_eq!(events[0].id, u64::MAX);
    assert_eq!(seq, 0);
}
