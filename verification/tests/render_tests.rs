use prompthub::error::PromptHubError;
use prompthub::output::{build_output, compute_digest, OutputFormat};
use prompthub::parser::LayerRef;
use prompthub::renderer::{substitute_vars, substitute_vars_reporting};
use prompthub::resolver::{cmp_version_dirs, parse_semver, select_version, LayerDirProbe, LayerResolver};
use prompthub::strmap::StrMap;

#[test]
fn test_substitute_vars() {
    let mut vars = StrMap::new();
    vars.insert("language".to_string(), "中文".to_string());
    vars.insert("name".to_string(), "Alice".to_string());
    let text = "Reply in ${language} by ${name}";
    let result = substitute_vars(text, &vars).unwrap();
    assert_eq!(result, "Reply in 中文 by Alice");
}

#[test]
fn test_substitute_undefined_var_kept() {
    let vars = StrMap::new();
    let text = "Reply in ${language}";
    let result = substitute_vars(text, &vars).unwrap();
    assert_eq!(result, "Reply in ${language}");
}

#[test]
fn test_substitute_multiple_occurrences() {
    let mut vars = StrMap::new();
    vars.insert("x".to_string(), "42".to_string());
    let text = "${x} + ${x} = 84";
    let result = substitute_vars(text, &vars).unwrap();
    assert_eq!(result, "42 + 42 = 84");
}

#[test]
fn test_compute_digest_deterministic() {
    let text = "Hello, world!";
    let layers = vec!["base/writer:v1.0".to_string()];
    let d1 = compute_digest(text, &layers);
    let d2 = compute_digest(text, &layers);
    assert_eq!(d1, d2, "digest must be deterministic");
}

#[test]
fn test_compute_digest_layer_sensitive() {
    let text = "Same text";
    let d1 = compute_digest(text, &["base/writer:v1.0".to_string()]);
    let d2 = compute_digest(text, &["base/critic:v1.0".to_string()]);
    assert_ne!(d1, d2, "different layer sets must produce different digests");
}

#[test]
fn test_compute_digest_is_hex_string() {
    let d = compute_digest("test", &[]);
    assert_eq!(d.len(), 16, "digest should be 8 bytes = 16 hex chars");
    assert!(d.chars().all(|c| c.is_ascii_hexdigit()), "digest should be hex");
}

#[test]
fn test_layer_not_found_display() {
    let e = PromptHubError::LayerNotFound("base/critic".to_string());
    let msg = e.message();
    assert!(msg.contains("base/critic"),
        "LayerNotFound message should include the layer name, got: {}", msg);
}

#[test]
fn test_conflict_error_display() {
    let e = PromptHubError::ConflictError("base/writer".to_string(), "base/translator".to_string());
    let msg = e.message();
    assert!(msg.contains("base/writer"), "ConflictError message should include first layer, got: {}", msg);
    assert!(msg.contains("base/translator"), "ConflictError message should include second layer, got: {}", msg);
}

#[test]
fn test_parse_error_display() {
    let e = PromptHubError::ParseError("unexpected token at line 3".to_string());
    let msg = e.message();
    assert!(msg.contains("unexpected token"), "ParseError should include the detail string, got: {}", msg);
}

#[test]
fn test_validation_error_display() {
    let e = PromptHubError::ValidationError("'name' field is required".to_string());
    let msg = e.message();
    assert!(msg.contains("name"), "ValidationError should include the detail string, got: {}", msg);
}

fn dirs(source: &str) -> Vec<String> {
    vec![format!("/tmp/l/{}", source), format!("/g/{}", source)]
}

fn versions(v: &[&str]) -> LayerDirProbe {
    LayerDirProbe::Versions(v.iter().map(|s| s.to_string()).collect())
}

fn layer_ref(source: &str, version: &str) -> LayerRef {
    LayerRef { source: source.to_string(), version: version.to_string() }
}

#[test]
fn test_resolve_exact_version() {
    let r = LayerResolver::new(vec!["/tmp/l".to_string()]);
    let probes = vec![versions(&["v1.0"]), LayerDirProbe::Missing];
    let dir = r.resolve(&layer_ref("base/code-critic", "v1.0"), &dirs("base/code-critic"), &probes).unwrap();
    assert_eq!(dir, "/tmp/l/base/code-critic/v1.0");
}

#[test]
fn test_resolve_latest() {
    let r = LayerResolver::new(vec!["/tmp/l".to_string()]);
    let probes = vec![versions(&["v1.1", "v1.0"]), LayerDirProbe::Missing];
    let dir = r.resolve(&layer_ref("base/code-critic", "latest"), &dirs("base/code-critic"), &probes).unwrap();
    assert_eq!(dir, "/tmp/l/base/code-critic/v1.1");
}

#[test]
fn test_resolve_not_found() {
    let r = LayerResolver::new(vec!["/tmp/l".to_string()]);
    let probes = vec![LayerDirProbe::Missing, LayerDirProbe::Missing];
    let err = r.resolve(&layer_ref("base/nonexistent", "latest"), &dirs("base/nonexistent"), &probes).unwrap_err();
    assert_eq!(err.message(),
        "Layer not found: Layer 'base/nonexistent' not found. Run `prompthub pull base/nonexistent` to fetch it.");
}

#[test]
fn test_resolve_major_version() {
    let r = LayerResolver::new(vec!["/tmp/l".to_string()]);
    let probes = vec![versions(&["v1.0", "v2.0", "v1.1"]), LayerDirProbe::Missing];
    let dir = r.resolve(&layer_ref("base/code-critic", "v1"), &dirs("base/code-critic"), &probes).unwrap();
    assert_eq!(dir, "/tmp/l/base/code-critic/v1.1",
        "major version 'v1' should resolve to latest v1.x, not v2.0");
}

#[test]
fn test_resolve_major_version_no_false_prefix_match() {
    let r = LayerResolver::new(vec!["/tmp/l".to_string()]);
    let probes = vec![versions(&["v10.0", "v11.0"]), LayerDirProbe::Missing];
    assert!(r.resolve(&layer_ref("test/prefix-test-unique", "v1"), &dirs("test/prefix-test-unique"), &probes).is_err(),
        "major version 'v1' must not match 'v10' or 'v11'");
}

#[test]
fn test_resolve_semver_latest_ordering() {
    let r = LayerResolver::new(vec!["/tmp/l".to_string()]);
    let probes = vec![versions(&["v1.9", "v1.10"]), LayerDirProbe::Missing];
    let dir = r.resolve(&layer_ref("base/semver-test", "latest"), &dirs("base/semver-test"), &probes).unwrap();
    assert_eq!(dir, "/tmp/l/base/semver-test/v1.10",
        "Semver sort must pick v1.10 as latest, not v1.9");
}

// ── own tests ────────────────────────────────────────────────────────────────

#[test]
fn substitution_reports_each_undefined_name() {
    let mut vars = StrMap::new();
    vars.insert("a".to_string(), "1".to_string());
    let (text, undefined) = substitute_vars_reporting("${a}${b}${b} ${c", &vars);
    assert_eq!(text, "1${b}${b} ${c");
    assert_eq!(undefined, vec!["b".to_string(), "b".to_string()]);
}

#[test]
fn digest_has_a_known_value() {
    // SHA-256("abc") starts with ba7816bf8f01cfea.
    assert_eq!(compute_digest("abc", &[]), "ba7816bf8f01cfea");
    assert_ne!(compute_digest("abc", &["x".to_string()]), compute_digest("abcx", &[]));
}

#[test]
fn build_output_carries_digest_and_lists() {
    let mut params = StrMap::new();
    params.insert("model".to_string(), "m".to_string());
    let layers = vec!["base/w".to_string()];
    let warnings = vec!["w1".to_string()];
    let out = build_output("text", &params, &layers, &warnings);
    assert_eq!(out.prompt, "text");
    assert_eq!(out.meta.layers, layers);
    assert_eq!(out.meta.warnings, warnings);
    assert_eq!(out.meta.digest, compute_digest("text", &layers));
    assert_eq!(out.params.get("model").unwrap(), "m");
    assert_eq!(OutputFormat::default(), OutputFormat::Text);
}

#[test]
fn semver_helpers() {
    assert_eq!(parse_semver("v1.9"), Some("1.9.0".to_string()));
    assert_eq!(parse_semver("2.0.1"), Some("2.0.1".to_string()));
    assert_eq!(parse_semver("next"), None);
    assert!(cmp_version_dirs("v1.9", "v1.10") < 0);
    assert!(cmp_version_dirs("v1.10", "v1.9") > 0);
    assert!(cmp_version_dirs("b", "a") > 0);
    assert_eq!(cmp_version_dirs("v1.0", "v1.0"), 0);
    let names = vec!["v1.0".to_string(), "v2.0".to_string(), "v1.5".to_string()];
    assert_eq!(select_version(&names, "latest"), Some(1));
    assert_eq!(select_version(&names, "v1"), Some(2));
    assert_eq!(select_version(&names, "v1.0"), Some(0));
    assert_eq!(select_version(&names, "v3"), None);
}

#[test]
fn flat_layer_directory_resolves_to_itself() {
    let r = LayerResolver::new(vec!["/tmp/l".to_string()]);
    let probes = vec![LayerDirProbe::Flat, versions(&["v1.0"])];
    let dir = r.resolve(&layer_ref("base/x", "v9"), &dirs("base/x"), &probes).unwrap();
    assert_eq!(dir, "/tmp/l/base/x");
    let probes2 = vec![versions(&["v2.0"]), versions(&["v1.0"])];
    let dir2 = r.resolve(&layer_ref("base/x", "v1.0"), &dirs("base/x"), &probes2).unwrap();
    assert_eq!(dir2, "/g/base/x/v1.0");
}

#[test]
fn names_that_are_no_versions_order_transitively() {
    assert!(cmp_version_dirs("alpha", "beta") < 0);
    assert!(cmp_version_dirs("beta", "gamma") < 0);
    assert!(cmp_version_dirs("alpha", "gamma") < 0);
    assert_eq!(cmp_version_dirs("beta", "alpha"), -cmp_version_dirs("alpha", "beta"));
    assert_eq!(cmp_version_dirs("v1.0", "draft"), -cmp_version_dirs("draft", "v1.0"));
}
