use taktora::error::{action_error, lock_error, ApiError};
use taktora::locks::LockError;
use taktora::model::EntityKind;
use taktora::provider::ActionError;
use taktora::routes::{endpoint_catalogue, infer_family, not_found_entity, status_filter, status_value};
use taktora::view::{FaultStatusFilter, ResolveError};

#[test]
fn unknown_family_infers_unknown() {
    assert_eq!(infer_family("/api/v1/components/x/operations"), "operations");
    assert_eq!(infer_family("/api/v1/components/x/bulk-data"), "bulk-data");
    assert_eq!(infer_family("/api/v1/wat"), "unknown");
}

#[test]
fn family_inference_prefers_the_listed_order() {
    assert_eq!(infer_family("/api/v1/apps/x/locks/status"), "locks");
    assert_eq!(infer_family("/api/v1/x-medkit/thing"), "x-medkit");
    assert_eq!(infer_family("/api/v1/docs"), "docs");
}

#[test]
fn status_query_is_parsed_from_the_query_string() {
    assert_eq!(status_value("status=confirmed"), Some("confirmed"));
    assert_eq!(status_value("a=1&status=pending&status=healed"), Some("pending"));
    assert_eq!(status_value("status"), Some(""));
    assert_eq!(status_value("stat=1&x"), None);
    assert_eq!(status_value("status=a=b"), Some("a=b"));
    assert_eq!(status_filter(None).unwrap(), FaultStatusFilter::All);
    assert_eq!(status_filter(Some("foo=bar")).unwrap(), FaultStatusFilter::All);
    assert_eq!(status_filter(Some("status=cleared")).unwrap(), FaultStatusFilter::Cleared);
    match status_filter(Some("status=bogus")) {
        Err(ApiError::BadRequest(g)) => {
            assert_eq!(g.error_code, "invalid-parameter");
            assert_eq!(g.parameters, vec![("status".to_owned(), "bogus".to_owned())]);
        },
        other => panic!("expected bad request, got {other:?}"),
    }
}

#[test]
fn catalogue_lists_the_served_surface() {
    let endpoints = endpoint_catalogue();
    assert_eq!(endpoints.len(), 84);
    assert_eq!(endpoints[0], "GET /api/v1/");
    assert!(endpoints.contains(&"GET /api/v1/areas/{id}/faults/{fault_code}".to_owned()));
    assert!(endpoints.contains(&"POST /api/v1/apps/{id}/locks".to_owned()));
    assert!(endpoints.contains(&"PUT /api/v1/components/{id}/status/start".to_owned()));
    assert!(!endpoints.contains(&"GET /api/v1/areas/{id}/locks".to_owned()));
    assert!(!endpoints.contains(&"GET /api/v1/areas/{id}/cyclic-subscriptions".to_owned()));
}

#[test]
fn errors_render_status_and_body() {
    let (status, body) = ApiError::not_implemented("operations", "/api/v1/x").response_parts();
    assert_eq!(status, 501);
    assert_eq!(body.error_code, "not-implemented");
    assert_eq!(body.message, "The 'operations' family is not implemented");
    assert_eq!(
        body.parameters,
        vec![("family".to_owned(), "operations".to_owned()), ("path".to_owned(), "/api/v1/x".to_owned())]
    );
    let (status, body) = ApiError::bad_status("zz").response_parts();
    assert_eq!(status, 400);
    assert_eq!(body.message, "Unknown fault status filter");
    let not_found: ApiError = ResolveError::entity_not_found("gw").into();
    let (status, body) = not_found.response_parts();
    assert_eq!(status, 404);
    assert_eq!(body, not_found_entity("gw"));
}

#[test]
fn lock_and_action_errors_carry_the_target() {
    match lock_error(LockError::Conflict, EntityKind::App, "gw", Some("lck-1")) {
        ApiError::Conflict(g) => {
            assert_eq!(g.error_code, "lock-conflict");
            assert_eq!(
                g.parameters,
                vec![
                    ("entity".to_owned(), "apps".to_owned()),
                    ("entity_id".to_owned(), "gw".to_owned()),
                    ("lock_id".to_owned(), "lck-1".to_owned()),
                ]
            );
        },
        other => panic!("expected conflict, got {other:?}"),
    }
    assert!(matches!(lock_error(LockError::NotFound, EntityKind::App, "gw", None), ApiError::NotFound(_)));
    match action_error(ActionError::BadRequest("bad args".to_owned()), EntityKind::Component, "nav") {
        ApiError::BadRequest(g) => {
            assert_eq!(g.message, "bad args");
            assert_eq!(g.parameters.len(), 2);
        },
        other => panic!("expected bad request, got {other:?}"),
    }
    let (status, _) = action_error(ActionError::Conflict, EntityKind::App, "gw").response_parts();
    assert_eq!(status, 409);
}
