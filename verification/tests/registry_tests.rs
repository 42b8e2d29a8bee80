use prompthub::registry::RegistryError;
use prompthub::registry::{auth_result, login_check, require_admin};
use prompthub::registry::token_valid;
use prompthub::registry::{check_upload, upload_description};
use prompthub::registry::{pull_auth_check, AuthConfig};
use prompthub::registry::{
    auth_check, default_log_level, default_port, default_region, extract_bearer, is_layer_file,
    layer_key, summarize_layers, AuthCheck, FilesystemStorage,
};

#[test]
fn test_extract_bearer_valid() {
    assert_eq!(extract_bearer(Some("Bearer phrt_abc")), Some("phrt_abc"));
}

#[test]
fn test_extract_bearer_missing() {
    assert_eq!(extract_bearer(None), None);
    assert_eq!(extract_bearer(Some("Basic xyz")), None);
}

#[test]
fn test_layer_key_format() {
    assert_eq!(
        layer_key("base", "expert", "v1.0", "layer.yaml"),
        "layers/base/expert/v1.0/layer.yaml"
    );
}

// ── own tests ────────────────────────────────────────────────────────────────

#[test]
fn bearer_prefix_is_case_sensitive_and_keeps_the_rest() {
    assert_eq!(extract_bearer(Some("bearer x")), None);
    assert_eq!(extract_bearer(Some("Bearer ")), Some(""));
    assert_eq!(extract_bearer(Some("Bearer  two")), Some(" two"));
}

#[test]
fn auth_check_admits_admin_and_defers_other_tokens() {
    assert_eq!(auth_check(None, "admin"), AuthCheck::Missing);
    assert_eq!(auth_check(Some("Token admin"), "admin"), AuthCheck::Missing);
    assert_eq!(auth_check(Some("Bearer admin"), "admin"), AuthCheck::Admin);
    assert_eq!(auth_check(Some("Bearer phrt_1"), "admin"), AuthCheck::Lookup("phrt_1".to_string()));
}

#[test]
fn registry_defaults() {
    assert_eq!(default_port(), 8080);
    assert_eq!(default_region(), "us-east-1");
    assert_eq!(default_log_level(), "info");
}

#[test]
fn only_layer_files_are_served() {
    assert!(is_layer_file("layer.yaml"));
    assert!(is_layer_file("prompt.md"));
    assert!(!is_layer_file("secrets.txt"));
}

#[test]
fn filesystem_storage_keeps_its_base() {
    let s = FilesystemStorage::new("/var/lib/reg".to_string());
    assert_eq!(s.base_dir(), "/var/lib/reg");
}

#[test]
fn layer_summaries_group_versions_by_layer() {
    let rows = vec![
        ("style".to_string(), "concise".to_string(), "v1.0".to_string()),
        ("base".to_string(), "writer".to_string(), "v1.0".to_string()),
        ("style".to_string(), "concise".to_string(), "v1.1".to_string()),
        ("base".to_string(), "writer".to_string(), "v2.0".to_string()),
        ("base".to_string(), "editor".to_string(), "v0.1".to_string()),
    ];
    let s = summarize_layers(&rows);
    assert_eq!(s.len(), 3);
    assert_eq!((s[0].namespace.as_str(), s[0].name.as_str()), ("base", "editor"));
    assert_eq!((s[1].namespace.as_str(), s[1].name.as_str()), ("base", "writer"));
    assert_eq!(s[1].versions, vec!["v1.0".to_string(), "v2.0".to_string()]);
    assert_eq!(s[1].latest, "v2.0");
    assert_eq!((s[2].namespace.as_str(), s[2].name.as_str()), ("style", "concise"));
    assert_eq!(s[2].latest, "v1.1");
    assert!(summarize_layers(&Vec::new()).is_empty());
}

#[test]
fn test_generate_token_has_prefix() {
    let tok = prompthub::registry::generate_token();
    assert!(tok.starts_with("phrt_"), "token must start with phrt_");
    assert_eq!(tok.len(), 5 + 32);
    assert!(tok[5..].chars().all(|c| c.is_ascii_alphanumeric()));
}

#[test]
fn test_hash_and_verify_password() {
    let hash = prompthub::registry::hash_password("mysecret").unwrap();
    assert!(prompthub::registry::verify_password("mysecret", &hash));
    assert!(!prompthub::registry::verify_password("wrong", &hash));
}

#[test]
fn unreadable_hash_never_verifies() {
    assert!(!prompthub::registry::verify_password("x", "not-a-hash"));
}

#[test]
fn registry_errors_map_to_responses() {
    assert_eq!(RegistryError::Unauthorized.response(), (401, "unauthorized".to_string()));
    assert_eq!(RegistryError::NotFound("k".into()).response(), (404, "layer not found: k".to_string()));
    assert_eq!(RegistryError::Conflict("a/b/v1".into()).response(), (409, "version already exists: a/b/v1".to_string()));
    assert_eq!(RegistryError::BadRequest("x".into()).response(), (400, "bad request: x".to_string()));
    assert_eq!(RegistryError::Database("boom".into()).response(), (500, "internal error".to_string()));
    assert_eq!(RegistryError::Storage("disk".into()).response(), (500, "storage error".to_string()));
    assert_eq!(RegistryError::Internal("oops".into()).message(), "internal error: oops");
}

#[test]
fn authentication_outcomes() {
    assert!(matches!(auth_result(&AuthCheck::Missing, None), Err(RegistryError::Unauthorized)));
    assert_eq!(auth_result(&AuthCheck::Admin, None).unwrap(), None);
    assert_eq!(auth_result(&AuthCheck::Lookup("t".into()), Some(Some(7))).unwrap(), Some(7));
    assert!(matches!(auth_result(&AuthCheck::Lookup("t".into()), None), Err(RegistryError::Unauthorized)));
    assert!(require_admin(Some("Bearer adm"), "adm").is_ok());
    assert!(require_admin(Some("Bearer other"), "adm").is_err());
    assert!(require_admin(None, "adm").is_err());
    let hash = prompthub::registry::hash_password("pw").unwrap();
    assert_eq!(login_check(Some((3, hash.clone())), "pw").unwrap(), 3);
    assert!(login_check(Some((3, hash)), "nope").is_err());
    assert!(login_check(None, "pw").is_err());
}

#[test]
fn token_expiry_and_revocation() {
    let now = (1_700_000_000i64, 0u32);
    assert_eq!(token_valid(1, None, now).unwrap(), false);
    assert_eq!(token_valid(0, None, now).unwrap(), true);
    assert_eq!(token_valid(0, Some("2000-01-01T00:00:00Z"), now).unwrap(), false);
    assert_eq!(token_valid(0, Some("2100-01-01T00:00:00+00:00"), now).unwrap(), true);
    assert!(token_valid(0, Some("yesterday"), now).is_err());
}

#[test]
fn upload_checks_in_order() {
    let y = Some(b"name: x".to_vec());
    let p = Some(b"[role]".to_vec());
    assert!(matches!(check_upload(true, y.clone(), p.clone(), "a", "b", "v1", false), Err(RegistryError::BadRequest(m)) if m == "registry is read-only"));
    assert!(matches!(check_upload(false, None, p.clone(), "a", "b", "v1", false), Err(RegistryError::BadRequest(m)) if m == "missing layer.yaml field"));
    assert!(matches!(check_upload(false, y.clone(), None, "a", "b", "v1", false), Err(RegistryError::BadRequest(m)) if m == "missing prompt.md field"));
    assert!(matches!(check_upload(false, y.clone(), p.clone(), "a", "b", "v1", true), Err(RegistryError::Conflict(m)) if m == "a/b/v1"));
    let (yy, pp) = check_upload(false, y, p, "a", "b", "v1", false).unwrap();
    assert_eq!(yy, b"name: x".to_vec());
    assert_eq!(pp, b"[role]".to_vec());
    assert_eq!(upload_description(""), None);
    assert_eq!(upload_description("d"), Some("d".to_string()));
}

#[test]
fn pull_auth_only_when_configured() {
    let open = AuthConfig { pull_requires_auth: false, admin_token: "adm".into() };
    assert_eq!(pull_auth_check(&open, None), None);
    let closed = AuthConfig { pull_requires_auth: true, admin_token: "adm".into() };
    assert_eq!(pull_auth_check(&closed, Some("Bearer adm")), Some(AuthCheck::Admin));
    assert_eq!(pull_auth_check(&closed, None), Some(AuthCheck::Missing));
}
