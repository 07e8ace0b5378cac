use std::sync::Arc;

use taktora::auth::{
    base64url, dev_jwt, json_string, AuthCredentials, AuthRejection, AuthTokenResponse, Authenticator,
    PermissiveAuthenticator, DEFAULT_EXPIRES_IN, DEFAULT_SCOPE,
};

fn creds() -> AuthCredentials {
    AuthCredentials {
        grant_type: "client_credentials".to_owned(),
        client_id: Some("diag".to_owned()),
        client_secret: Some("s3cret".to_owned()),
        ..AuthCredentials::default()
    }
}

#[test]
fn permissive_issues_a_jwt_shaped_bearer_token() {
    let token = PermissiveAuthenticator
        .issue_token(&creds())
        .expect("permissive never rejects");
    assert_eq!(token.token_type, "Bearer");
    assert_eq!(token.expires_in, DEFAULT_EXPIRES_IN);
    assert!(!token.scope.is_empty());
    let segments: Vec<&str> = token.access_token.split('.').collect();
    assert_eq!(segments.len(), 3, "JWT shape: 3 segments");
    assert!(segments.iter().all(|s| !s.is_empty()));
}

#[test]
fn permissive_accepts_any_or_no_bearer() {
    assert!(PermissiveAuthenticator.verify_bearer(None).is_ok());
    assert!(PermissiveAuthenticator.verify_bearer(Some("anything")).is_ok());
}

#[test]
fn requested_scope_is_echoed() {
    let mut c = creds();
    c.scope = Some("medkit:read medkit:write".to_owned());
    let token = PermissiveAuthenticator.issue_token(&c).unwrap();
    assert_eq!(token.scope, "medkit:read medkit:write");
}

#[test]
fn rejecting_authenticator_is_substitutable() {
    struct Rejecting;
    impl Authenticator for Rejecting {
        fn issue_token(&self, _c: &AuthCredentials) -> Result<AuthTokenResponse, AuthRejection> {
            Err(AuthRejection::invalid_client("nope"))
        }
        fn verify_bearer(&self, _b: Option<&str>) -> Result<(), AuthRejection> {
            Err(AuthRejection::invalid_client("nope"))
        }
    }
    let strict: Arc<dyn Authenticator> = Arc::new(Rejecting);
    let permissive: Arc<dyn Authenticator> = Arc::new(PermissiveAuthenticator);
    assert!(strict.issue_token(&creds()).is_err());
    assert!(permissive.issue_token(&creds()).is_ok());
}

#[test]
fn base64url_matches_known_vectors() {
    assert_eq!(base64url(b""), "");
    assert_eq!(base64url(b"f"), "Zg");
    assert_eq!(base64url(b"fo"), "Zm8");
    assert_eq!(base64url(b"foo"), "Zm9v");
    assert_eq!(base64url(b"foob"), "Zm9vYg");
}

#[test]
fn base64url_uses_the_url_safe_alphabet() {
    assert_eq!(base64url(&[0xfb, 0xff]), "-_8");
    assert_eq!(base64url(b"fooba"), "Zm9vYmE");
    assert_eq!(base64url(b"foobar"), "Zm9vYmFy");
}

#[test]
fn empty_scope_falls_back_to_the_default() {
    let mut c = creds();
    c.scope = Some(String::new());
    let token = PermissiveAuthenticator.issue_token(&c).unwrap();
    assert_eq!(token.scope, DEFAULT_SCOPE);
    c.scope = None;
    let token = PermissiveAuthenticator.issue_token(&c).unwrap();
    assert_eq!(token.scope, DEFAULT_SCOPE);
    assert!(token.refresh_token.is_none());
}

#[test]
fn json_string_escapes_quotes_and_controls() {
    assert_eq!(json_string("a\"b\\c"), "\"a\\\"b\\\\c\"");
    assert_eq!(json_string("x\ny"), "\"x\\ny\"");
    assert_eq!(json_string("\t\r\u{8}\u{c}"), "\"\\t\\r\\b\\f\"");
    assert_eq!(json_string("\u{0}\u{1f}\u{7f}"), "\"\\u0000\\u001f\u{7f}\"");
    let decoded: serde_json::Value = serde_json::from_str(&json_string("a\n\u{1}\"\\b")).unwrap();
    assert_eq!(decoded, serde_json::Value::String("a\n\u{1}\"\\b".to_owned()));
    assert_eq!(json_string(""), "\"\"");
}

#[test]
fn dev_jwt_has_three_nonempty_segments_and_a_fixed_header() {
    let token = dev_jwt("diag", "medkit:read", 3600);
    let segments: Vec<&str> = token.split('.').collect();
    assert_eq!(segments.len(), 3);
    assert_eq!(segments[0], base64url(b"{\"alg\":\"none\",\"typ\":\"JWT\"}"));
    assert!(segments.iter().all(|s| !s.is_empty() && !s.contains('.')));
}

#[test]
fn rejections_carry_their_status_and_code() {
    let r = AuthRejection::invalid_client("bad");
    assert_eq!(r.status, 401);
    assert_eq!(r.error_code, "invalid-client");
    assert_eq!(r.message, "bad");
    let r = AuthRejection::unsupported_grant_type("grant");
    assert_eq!(r.status, 400);
    assert_eq!(r.error_code, "unsupported-grant-type");
}
