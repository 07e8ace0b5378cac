use taktora::cyclic::{subscription_not_found, CyclicSpec, CyclicStore, DEFAULT_INTERVAL_MS};
use taktora::error::ApiError;
use taktora::model::{FaultEvent, FaultEventMeta, FaultSummary, Severity};
use taktora::triggers::{
    make_event, resume_floor, trigger_not_found, ReplayRing, Trigger, TriggerSpec, TriggerStore, REPLAY_RING,
};

#[test]
fn cyclic_store_round_trips() {
    let mut store = CyclicStore::default();
    let created = store.create(
        "gw".to_owned(),
        CyclicSpec {
            data_path: Some("cpu".to_owned()),
            interval_ms: Some(30),
        },
    );
    assert_eq!(created.entity_id, "gw");
    assert_eq!(created.interval_ms, 30);
    assert!(store.get(&created.id).is_some());

    let updated = store
        .update(
            &created.id,
            CyclicSpec {
                data_path: None,
                interval_ms: None,
            },
        )
        .expect("update existing");
    assert_eq!(updated.entity_id, "gw");
    assert_eq!(updated.interval_ms, DEFAULT_INTERVAL_MS);
    assert!(updated.data_path.is_none());

    assert!(store.remove(&created.id));
    assert!(store.get(&created.id).is_none());
    assert!(!store.remove(&created.id));
}

#[test]
fn store_scopes_by_entity() {
    let mut store = CyclicStore::default();
    let a = store.create("app-a".to_owned(), CyclicSpec::default());
    store.create("app-b".to_owned(), CyclicSpec::default());

    let for_a = store.list_for_entity("app-a");
    assert_eq!(for_a.len(), 1);
    assert_eq!(for_a[0].id, a.id);
    assert!(store.list_for_entity("app-c").is_empty());
}

#[test]
fn cyclic_ids_count_up_from_one() {
    let mut store = CyclicStore::new();
    let a = store.create("x".to_owned(), CyclicSpec::default());
    let b = store.create("x".to_owned(), CyclicSpec::default());
    assert_eq!(a.id, "cyc-1");
    assert_eq!(b.id, "cyc-2");
    assert!(store.remove("cyc-1"));
    let c = store.create("x".to_owned(), CyclicSpec::default());
    assert_eq!(c.id, "cyc-3");
}

#[test]
fn cyclic_scoped_access_hides_other_entities() {
    let mut store = CyclicStore::new();
    let a = store.create("app-a".to_owned(), CyclicSpec::default());
    assert!(store.scoped_subscription("app-a", &a.id).is_ok());
    match store.scoped_subscription("app-b", &a.id) {
        Err(ApiError::NotFound(g)) => {
            assert_eq!(g.error_code, "cyclic-subscription-not-found");
            assert_eq!(g.parameters, vec![("subscription_id".to_owned(), a.id.clone())]);
        },
        other => panic!("expected not-found, got {other:?}"),
    }
    assert!(store
        .update_scoped("app-b", &a.id, CyclicSpec { data_path: None, interval_ms: Some(5) })
        .is_err());
    let updated = store
        .update_scoped("app-a", &a.id, CyclicSpec { data_path: Some("d".to_owned()), interval_ms: Some(5) })
        .unwrap();
    assert_eq!(updated.interval_ms, 5);
    assert_eq!(updated.data_path.as_deref(), Some("d"));
    let stored = store.get(&a.id).unwrap();
    assert_eq!(stored.interval_ms, 5);
    assert_eq!(stored.data_path.as_deref(), Some("d"));
    assert!(store.delete_scoped("app-b", &a.id).is_err());
    assert!(store.delete_scoped("app-a", &a.id).is_ok());
    assert!(store.get(&a.id).is_none());
}

#[test]
fn cyclic_sample_period_is_clamped() {
    let mut store = CyclicStore::new();
    let fast = store.create("x".to_owned(), CyclicSpec { data_path: None, interval_ms: Some(0) });
    let slow = store.create("x".to_owned(), CyclicSpec { data_path: None, interval_ms: Some(500) });
    assert_eq!(fast.sample_period_ms(), 50);
    assert_eq!(slow.sample_period_ms(), 500);
}

#[test]
fn subscription_not_found_names_the_id() {
    let g = subscription_not_found("cyc-9");
    assert_eq!(g.message, "Cyclic subscription not found");
    assert_eq!(g.parameters, vec![("subscription_id".to_owned(), "cyc-9".to_owned())]);
}

fn fault(code: &str, severity: Severity) -> FaultSummary {
    FaultSummary {
        description: code.to_owned(),
        fault_code: code.to_owned(),
        first_occurred: 1.0f64.to_bits(),
        last_occurred: 2.0f64.to_bits(),
        occurrence_count: 1,
        reporting_sources: vec![],
        severity: severity.wire_value(),
        severity_label: format!("{severity:?}").to_uppercase(),
        status: "CONFIRMED".to_owned(),
    }
}

#[test]
fn trigger_filters_by_entity_and_severity() {
    let mut seq = 1u64;
    let event = make_event(
        "fault_raised",
        taktora::model::EntityKind::App,
        "gw",
        &fault("BRAKE", Severity::Error),
        &mut seq,
    )
    .event;

    let any = Trigger { id: "t".to_owned(), entity_id: None, severity: None };
    assert!(any.matches(&event));

    let entity_match = Trigger { id: "t".to_owned(), entity_id: Some("gw".to_owned()), severity: None };
    assert!(entity_match.matches(&event));

    let entity_miss = Trigger { id: "t".to_owned(), entity_id: Some("other".to_owned()), severity: None };
    assert!(!entity_miss.matches(&event));

    let severity_floor = Trigger {
        id: "t".to_owned(),
        entity_id: None,
        severity: Some(Severity::Critical.wire_value()),
    };
    assert!(!severity_floor.matches(&event));
}

#[test]
fn make_event_numbers_and_scopes_the_event() {
    let mut seq = 7u64;
    let e = make_event("fault_cleared", taktora::model::EntityKind::Component, "nav", &fault("X", Severity::Warn), &mut seq);
    assert_eq!(e.id, 7);
    assert_eq!(seq, 8);
    assert_eq!(e.event.event_type, "fault_cleared");
    assert_eq!(e.event.timestamp, 2.0f64.to_bits());
    assert_eq!(e.event.x_medkit.entity_id, "nav");
    assert_eq!(e.event.x_medkit.entity_type, "components");
}

#[test]
fn triggers_store_round_trips() {
    let mut store = TriggerStore::default();
    let created = store.create(TriggerSpec { entity_id: Some("gw".to_owned()), severity: Some(2) });
    assert!(store.get(&created.id).is_some());
    assert!(store.remove(&created.id));
    assert!(store.get(&created.id).is_none());
    assert!(!store.remove(&created.id));
}

#[test]
fn store_scopes_by_entity_and_updates() {
    let mut store = TriggerStore::default();
    let a = store.create(TriggerSpec { entity_id: Some("app-a".to_owned()), severity: None });
    store.create(TriggerSpec { entity_id: Some("app-b".to_owned()), severity: None });

    let for_a = store.list_for_entity("app-a");
    assert_eq!(for_a.len(), 1);
    assert_eq!(for_a[0].id, a.id);
    assert!(store.list_for_entity("app-c").is_empty());

    let updated = store
        .update(&a.id, TriggerSpec { entity_id: Some("app-a".to_owned()), severity: Some(3) })
        .expect("update existing");
    assert_eq!(updated.severity, Some(3));
    assert!(store.update("trg-999", TriggerSpec::default()).is_none());
}

#[test]
fn any_matches_reports_a_matching_trigger() {
    let mut store = TriggerStore::new();
    let mut seq = 1u64;
    let event: FaultEvent = make_event("fault_raised", taktora::model::EntityKind::App, "gw", &fault("B", Severity::Warn), &mut seq).event;
    assert!(!store.any_matches(&event));
    store.create(TriggerSpec { entity_id: Some("other".to_owned()), severity: None });
    assert!(!store.any_matches(&event));
    store.create(TriggerSpec { entity_id: None, severity: Some(1) });
    assert!(store.any_matches(&event));
    assert_eq!(store.all().len(), 2);
}

#[test]
fn entity_scoped_triggers_are_pinned_to_the_path_entity() {
    let mut store = TriggerStore::new();
    let t = store.create_for_entity("gw", TriggerSpec { entity_id: Some("elsewhere".to_owned()), severity: None });
    assert_eq!(t.entity_id.as_deref(), Some("gw"));
    assert_eq!(t.id, "trg-1");
    assert!(store.scoped_trigger("gw", &t.id).is_ok());
    match store.scoped_trigger("nav", &t.id) {
        Err(ApiError::NotFound(g)) => assert_eq!(g, trigger_not_found(&t.id)),
        other => panic!("expected not-found, got {other:?}"),
    }
    let u = store
        .update_scoped("gw", &t.id, TriggerSpec { entity_id: Some("nav".to_owned()), severity: Some(2) })
        .unwrap();
    assert_eq!(u.entity_id.as_deref(), Some("gw"));
    assert_eq!(u.severity, Some(2));
    assert_eq!(store.get(&t.id).unwrap().severity, Some(2));
    assert!(store.delete_scoped("gw", &t.id).is_ok());
    assert!(store.list_for_entity("gw").is_empty());
}

#[test]
fn fault_event_meta_is_plain_data() {
    let meta = FaultEventMeta { entity_id: "a".to_owned(), entity_type: "apps".to_owned() };
    assert_eq!(meta.clone(), meta);
}

#[test]
fn replay_ring_keeps_the_latest_events_and_resumes_after_them() {
    let mut ring = ReplayRing::new();
    let mut seq = 1u64;
    for _ in 0..(REPLAY_RING + 5) {
        let e = make_event("fault_raised", taktora::model::EntityKind::App, "gw", &fault("B", Severity::Warn), &mut seq);
        ring.retain(e);
    }
    let all = ring.after(0);
    assert_eq!(all.len(), REPLAY_RING);
    assert_eq!(all[0].id, 6);
    let tail = ring.after(100);
    let ids: Vec<u64> = tail.iter().map(|e| e.id).collect();
    assert_eq!(ids, vec![101, 102, 103, 104, 105]);
    assert_eq!(resume_floor(&tail, 100), 105);
    assert_eq!(resume_floor(&ring.after(500), 500), 500);
}

#[test]
fn build_info_defaults_to_unknown() {
    let b = taktora::model::BuildInfo::default();
    assert_eq!(b.git_sha, "unknown");
    assert_eq!(b.rustc_version, "unknown");
    assert!(!b.git_dirty);
}
