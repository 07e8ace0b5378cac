use serde_json::Value;
use taktora::action::{operation_def, ActionSink, SimActionSink};
use taktora::error::ApiError;
use taktora::model::EntityKind;
use taktora::provider::{ActionError, ExecutionStatus, OperationDef, ResourceRef};

fn target() -> ResourceRef {
    ResourceRef::new(EntityKind::App, "gw")
}

fn object(key: &str, value: Value) -> Value {
    let mut m = serde_json::Map::new();
    m.insert(key.to_string(), value);
    Value::Object(m)
}

#[test]
fn catalogue_gates_start() {
    let mut sink = SimActionSink::new().with_operation(EntityKind::App, "gw", "reset");
    assert_eq!(sink.operations(&target()).len(), 1);
    assert!(sink.start_operation(&target(), "reset", Value::Null).is_ok());
    assert_eq!(
        sink.start_operation(&target(), "unknown", Value::Null).unwrap_err(),
        ActionError::NotFound
    );
}

#[test]
fn execution_lifecycle() {
    let mut sink = SimActionSink::new().with_operation(EntityKind::App, "gw", "reset");
    let started = sink
        .start_operation(&target(), "reset", object("force", Value::Bool(true)))
        .expect("start");
    assert_eq!(started.status, ExecutionStatus::Completed);
    assert_eq!(started.result, Some(object("echo", object("force", Value::Bool(true)))));

    assert_eq!(sink.executions(&target(), "reset").unwrap().len(), 1);
    assert!(sink.execution(&target(), "reset", &started.id).is_ok());

    // A different op never sees this execution.
    assert_eq!(
        sink.execution(&target(), "other", &started.id).unwrap_err(),
        ActionError::NotFound
    );

    sink.cancel_execution(&target(), "reset", &started.id).expect("cancel");
    assert_eq!(
        sink.execution(&target(), "reset", &started.id).unwrap_err(),
        ActionError::NotFound
    );
    assert_eq!(
        sink.cancel_execution(&target(), "reset", &started.id).unwrap_err(),
        ActionError::NotFound
    );
}

#[test]
fn execution_ids_count_up_from_zero() {
    let mut sink = SimActionSink::new().with_operation(EntityKind::App, "gw", "reset");
    let a = sink.start_operation(&target(), "reset", Value::Null).unwrap();
    let b = sink.start_operation(&target(), "reset", Value::Null).unwrap();
    assert_eq!(a.id, "exec-0");
    assert_eq!(b.id, "exec-1");
    assert_eq!(a.operation_id, "reset");
    assert_eq!(a.result, Some(object("echo", Value::Null)));
}

#[test]
fn executions_list_in_id_order() {
    let mut sink = SimActionSink::new().with_operation(EntityKind::App, "gw", "reset");
    for _ in 0..11 {
        sink.start_operation(&target(), "reset", Value::Null).unwrap();
    }
    let ids: Vec<String> = sink
        .executions(&target(), "reset")
        .unwrap()
        .into_iter()
        .map(|e| e.id)
        .collect();
    assert_eq!(ids.len(), 11);
    assert_eq!(ids[0], "exec-0");
    assert_eq!(ids[1], "exec-1");
    assert_eq!(ids[2], "exec-10");
    assert_eq!(ids[3], "exec-2");
    assert_eq!(ids[10], "exec-9");
}

#[test]
fn executions_are_scoped_to_resource_and_operation() {
    let mut sink = SimActionSink::new()
        .with_operation(EntityKind::App, "gw", "reset")
        .with_operation(EntityKind::App, "gw", "calibrate")
        .with_operation(EntityKind::Component, "gw", "reset");
    let other = ResourceRef::new(EntityKind::Component, "gw");
    sink.start_operation(&target(), "reset", Value::Null).unwrap();
    sink.start_operation(&target(), "calibrate", Value::Null).unwrap();
    sink.start_operation(&other, "reset", Value::Null).unwrap();
    assert_eq!(sink.executions(&target(), "reset").unwrap().len(), 1);
    assert_eq!(sink.executions(&target(), "calibrate").unwrap().len(), 1);
    assert_eq!(sink.executions(&other, "reset").unwrap().len(), 1);
    assert_eq!(sink.executions(&other, "calibrate").unwrap_err(), ActionError::NotFound);
    assert_eq!(sink.operations(&target()).len(), 2);
    assert_eq!(sink.operations(&target())[1].id, "calibrate");
    assert_eq!(sink.operations(&target())[1].name, "calibrate");
    assert!(sink.operations(&target())[1].description.is_none());
    assert!(sink.operations(&ResourceRef::new(EntityKind::Area, "gw")).is_empty());
}

#[test]
fn execution_lookup_misses_other_resource() {
    let mut sink = SimActionSink::new().with_operation(EntityKind::App, "gw", "reset");
    let e = sink.start_operation(&target(), "reset", Value::Null).unwrap();
    let elsewhere = ResourceRef::new(EntityKind::App, "other");
    assert_eq!(sink.execution(&elsewhere, "reset", &e.id).unwrap_err(), ActionError::NotFound);
    assert_eq!(
        sink.cancel_execution(&elsewhere, "reset", &e.id).unwrap_err(),
        ActionError::NotFound
    );
    assert!(sink.execution(&target(), "reset", &e.id).is_ok());
}

fn op(id: &str, name: &str) -> OperationDef {
    OperationDef { id: id.to_owned(), name: name.to_owned(), description: None }
}

#[test]
fn operation_def_finds_the_first_entry_or_answers_not_found() {
    let ops = vec![op("reset", "Reset"), op("calibrate", "Calibrate"), op("reset", "Second reset")];
    assert_eq!(operation_def(&ops, &target(), "reset").unwrap(), op("reset", "Reset"));
    assert_eq!(operation_def(&ops, &target(), "calibrate").unwrap().name, "Calibrate");
    match operation_def(&ops, &target(), "flash") {
        Err(ApiError::NotFound(g)) => {
            assert_eq!(g.error_code, "not-found");
            assert_eq!(g.message, "Operation or execution not found");
            assert_eq!(
                g.parameters,
                vec![("entity".to_owned(), "apps".to_owned()), ("entity_id".to_owned(), "gw".to_owned())]
            );
        }
        other => panic!("expected not found, got {other:?}"),
    }
}
