use std::sync::Arc;

use serafort_sdk::b2b::{jwt_payload, B2BModule};
use serafort_sdk::json::JsonValue;
use serafort_sdk::types::{SerafortConfig, UserContext};
use serafort_sdk::SerafortError;

fn user(roles: &[&str], permissions: &[&str]) -> UserContext {
    UserContext {
        user_id: "u1".to_string(),
        tenant_id: "t1".to_string(),
        email: None,
        roles: roles.iter().map(|r| r.to_string()).collect(),
        permissions: permissions.iter().map(|p| p.to_string()).collect(),
        claims: JsonValue::Null,
    }
}

fn module(endpoint: &str) -> B2BModule {
    B2BModule::new(Arc::new(SerafortConfig::new(endpoint)))
}

fn object(members: Vec<(&str, JsonValue)>) -> JsonValue {
    JsonValue::Object(members.into_iter().map(|(k, v)| (k.to_string(), v)).collect())
}

fn text(s: &str) -> JsonValue {
    JsonValue::Str(s.to_string())
}

fn auth_message(r: Result<UserContext, SerafortError>) -> String {
    match r {
        Err(SerafortError::Authentication(m)) => m,
        other => panic!("expected an authentication error, got {:?}", other),
    }
}

#[test]
fn test_b2b_permissions_and_wildcards() {
    let config = Arc::new(SerafortConfig::new("https://auth.acme.com"));
    let b2b = B2BModule::new(config);

    let user = UserContext {
        user_id: "u1".to_string(),
        tenant_id: "t1".to_string(),
        email: None,
        roles: vec!["admin".to_string()],
        permissions: vec!["org:read".to_string(), "users:*".to_string()],
        claims: JsonValue::Null,
    };

    assert!(b2b.has_permission(&user, "org:read"));
    assert!(b2b.has_permission(&user, "users:create"));
    assert!(b2b.has_permission(&user, "users:delete"));
    assert!(!b2b.has_permission(&user, "billing:write"));

    assert!(b2b.has_role(&user, "admin"));
    assert!(!b2b.has_role(&user, "viewer"));
}

#[test]
fn test_get_login_url() {
    let config = Arc::new(SerafortConfig::new("https://auth.acme.com"));
    let b2b = B2BModule::new(config);

    let url = b2b.get_login_url("ten_123", "https://app.acme.com/cb");
    assert!(url.contains("tenant_id=ten_123"));
    assert!(url.contains("redirect_uri=https%3A%2F%2Fapp.acme.com%2Fcb"));
}

#[test]
fn login_url_exact_and_trailing_slashes_dropped() {
    let b2b = module("https://auth.acme.com//");
    assert_eq!(
        b2b.get_login_url("ten 1", "https://app/ü"),
        "https://auth.acme.com/api/auth/sso/login?tenant_id=ten%201&redirect_uri=https%3A%2F%2Fapp%2F%C3%BC"
    );
    let plain = module("https://auth.acme.com");
    assert_eq!(
        plain.get_login_url("ten 1", "https://app/ü"),
        b2b.get_login_url("ten 1", "https://app/ü")
    );
}

#[test]
fn star_and_prefix_wildcards() {
    let b2b = module("https://auth.acme.com");
    let admin = user(&[], &["*"]);
    assert!(b2b.has_permission(&admin, "anything:at:all"));
    assert!(b2b.has_permission(&admin, ""));
    // `users:*` covers what begins with `users:`, colon included.
    let users = user(&[], &["users:*"]);
    assert!(b2b.has_permission(&users, "users:read"));
    assert!(b2b.has_permission(&users, "users:"));
    assert!(!b2b.has_permission(&users, "usersettings"));
    assert!(!b2b.has_permission(&users, "usersettings:write"));
    assert!(!b2b.has_permission(&users, "users"));
    assert!(!b2b.has_permission(&users, "user"));
    assert!(!b2b.has_permission(&users, "org:users"));
}

#[test]
fn no_permissions_grant_nothing() {
    let b2b = module("https://auth.acme.com");
    let nobody = user(&["admin"], &[]);
    assert!(!b2b.has_permission(&nobody, "org:read"));
    assert!(!b2b.has_permission(&nobody, "*"));
}

#[test]
fn more_permissions_never_revoke() {
    let b2b = module("https://auth.acme.com");
    let few = user(&[], &["org:read"]);
    let more = user(&[], &["org:read", "billing:*", "x"]);
    assert!(b2b.has_permission(&few, "org:read"));
    assert!(b2b.has_permission(&more, "org:read"));
    assert!(b2b.has_permission(&more, "billing:write"));
}

#[test]
fn roles_match_exactly() {
    let b2b = module("https://auth.acme.com");
    let u = user(&["admin", "viewer"], &[]);
    assert!(b2b.has_role(&u, "viewer"));
    assert!(!b2b.has_role(&u, "Admin"));
    assert!(!b2b.has_role(&u, ""));
}

#[test]
fn jwt_payload_needs_three_segments() {
    for token in ["", "a.b", "a.b.c.d"] {
        match jwt_payload(token) {
            Err(SerafortError::Authentication(m)) => assert_eq!(m, "Invalid JWT: expected 3 parts"),
            other => panic!("unexpected {:?}", other),
        }
    }
}

#[test]
fn jwt_payload_decodes_middle_segment() {
    let payload = jwt_payload("eyJhbGciOiJub25lIn0.eyJzdWIiOiJ1MSJ9.sig").unwrap();
    assert_eq!(payload, b"{\"sub\":\"u1\"}".to_vec());
    assert_eq!(jwt_payload("..").unwrap(), Vec::<u8>::new());
}

#[test]
fn expired_token_is_refused() {
    let b2b = module("https://auth.acme.com");
    let claims = object(vec![("exp", JsonValue::PosInt(1000)), ("iss", text("https://evil.com"))]);
    assert_eq!(auth_message(b2b.validate_claims(claims, 1061)), "Token has expired");
}

#[test]
fn expiry_has_a_minute_of_tolerance() {
    let b2b = module("https://auth.acme.com");
    let claims = object(vec![("exp", JsonValue::PosInt(1000)), ("sub", text("u9"))]);
    let u = b2b.validate_claims(claims, 1060).unwrap();
    assert_eq!(u.user_id, "u9");
    // An expiry that is not a non-negative integer is not checked.
    let claims = object(vec![("exp", JsonValue::NegInt(-5))]);
    assert!(b2b.validate_claims(claims, u64::MAX).is_ok());
}

#[test]
fn wrong_issuer_is_refused() {
    let b2b = module("https://auth.acme.com/");
    let claims = object(vec![("iss", text("https://evil.com/"))]);
    assert_eq!(
        auth_message(b2b.validate_claims(claims, 0)),
        "Invalid issuer: expected 'https://auth.acme.com', got 'https://evil.com/'"
    );
}

#[test]
fn issuer_compared_without_trailing_slashes() {
    let b2b = module("https://auth.acme.com");
    let claims = object(vec![("iss", text("https://auth.acme.com///"))]);
    assert!(b2b.validate_claims(claims, 0).is_ok());
    // An issuer that is not a string is not checked.
    let claims = object(vec![("iss", JsonValue::PosInt(3))]);
    assert!(b2b.validate_claims(claims, 0).is_ok());
}

#[test]
fn claims_are_mapped_to_user() {
    let b2b = module("https://auth.acme.com");
    let claims = object(vec![
        ("id", text("user-7")),
        ("org_id", text("org-1")),
        ("tid", text("ignored")),
        ("email", text("a@b.c")),
        ("roles", JsonValue::Array(vec![text("admin"), JsonValue::Bool(true), text("viewer")])),
        ("role", text("ignored")),
        ("scope", text("  read:users\twrite:users  ")),
    ]);
    let u = b2b.validate_claims(claims, 0).unwrap();
    assert_eq!(u.user_id, "user-7");
    assert_eq!(u.tenant_id, "org-1");
    assert_eq!(u.email, Some("a@b.c".to_string()));
    assert_eq!(u.roles, vec!["admin".to_string(), "viewer".to_string()]);
    assert_eq!(u.permissions, vec!["read:users".to_string(), "write:users".to_string()]);
    assert!(matches!(u.claims, JsonValue::Object(_)));
}

#[test]
fn first_present_claim_wins_even_when_not_a_string() {
    let b2b = module("https://auth.acme.com");
    let claims = object(vec![
        ("sub", JsonValue::PosInt(42)),
        ("user_id", text("not-used")),
        ("app_metadata", object(vec![("tenant_id", text("meta-tenant"))])),
        ("role", text("editor")),
        ("roles", text("not an array")),
        ("permissions", JsonValue::Array(vec![text("p1"), JsonValue::Null])),
        ("scope", text("ignored")),
    ]);
    let u = b2b.validate_claims(claims, 0).unwrap();
    assert_eq!(u.user_id, "");
    assert_eq!(u.tenant_id, "meta-tenant");
    assert_eq!(u.email, None);
    assert_eq!(u.roles, vec!["editor".to_string()]);
    assert_eq!(u.permissions, vec!["p1".to_string()]);
}

#[test]
fn empty_claims_give_empty_user() {
    let b2b = module("https://auth.acme.com");
    let u = b2b.validate_claims(JsonValue::Null, 0).unwrap();
    assert_eq!(u.user_id, "");
    assert_eq!(u.tenant_id, "");
    assert!(u.roles.is_empty());
    assert!(u.permissions.is_empty());
}
