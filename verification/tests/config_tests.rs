use prompthub::parser::LayerRef;
use prompthub::pull::plan_pull;
use prompthub::push::{missing_layer_dir, missing_version_dir, push_dirs, push_outcome, push_token, push_url, PushResult};
use prompthub::config::hub_dir_from_home;
use prompthub::config::{join_path, strip_trailing_slashes, Config, Source, SourceAuth};
use prompthub::pull::{auth_token_for, layer_url_base, resolve_pull_version};
use prompthub::push::PushTarget;

#[test]
fn test_default_config_has_official_source() {
    let cfg = Config::default_config();
    assert_eq!(cfg.sources.len(), 1, "default config should have one source");
    assert_eq!(cfg.sources[0].name, "official");
    assert!(cfg.sources[0].default, "official source should be marked as default");
}

#[test]
fn test_default_source_returns_default_marked_source() {
    let cfg = Config::default_config();
    let src = cfg.default_source().expect("default source should be present");
    assert_eq!(src.name, "official");
}

#[test]
fn test_default_source_falls_back_to_first_when_none_marked() {
    let cfg = Config {
        sources: vec![
            Source { name: "mirror".to_string(), url: "https://mirror.example.com".to_string(), default: false, auth: None },
            Source { name: "secondary".to_string(), url: "https://secondary.example.com".to_string(), default: false, auth: None },
        ],
    };
    let src = cfg.default_source().expect("should fall back to first source");
    assert_eq!(src.name, "mirror", "first source should be used as fallback");
}

#[test]
fn test_find_by_url_exact_match() {
    let cfg = Config {
        sources: vec![Source {
            name: "my-reg".to_string(),
            url: "https://registry.example.com".to_string(),
            default: true,
            auth: None,
        }],
    };
    assert!(cfg.find_source_by_url("https://registry.example.com").is_some());
    assert!(cfg.find_source_by_url("https://registry.example.com/").is_some());
    assert!(cfg.find_source_by_url("https://other.example.com").is_none());
}

#[test]
fn test_resolve_pull_version_latest_becomes_v1_0() {
    assert_eq!(resolve_pull_version("latest"), "v1.0",
        "'latest' should fall back to v1.0 until index discovery is implemented");
}

#[test]
fn test_resolve_pull_version_empty_becomes_v1_0() {
    assert_eq!(resolve_pull_version(""), "v1.0", "empty version should fall back to v1.0");
}

#[test]
fn test_resolve_pull_version_explicit_preserved() {
    assert_eq!(resolve_pull_version("v2.3"), "v2.3", "explicit version should be returned as-is");
    assert_eq!(resolve_pull_version("v1.0"), "v1.0", "v1.0 should be returned as-is");
}

#[test]
fn test_layer_url_base_construction() {
    let url = layer_url_base("https://example.com/registry", "base/critic", "v1.0");
    assert_eq!(url, "https://example.com/registry/layers/base/critic/v1.0");
}

#[test]
fn test_layer_url_base_strips_trailing_slash() {
    let url = layer_url_base("https://example.com/registry/", "base/writer", "v2.0");
    assert_eq!(url, "https://example.com/registry/layers/base/writer/v2.0",
        "trailing slash in base URL should be stripped");
}

#[test]
fn test_pull_layer_uses_auth_token_when_present() {
    let source_with_auth = Source {
        name: "private-reg".to_string(),
        url: "https://registry.example.com".to_string(),
        default: true,
        auth: Some(SourceAuth { token: "phrt_test123".to_string() }),
    };
    let source_no_auth = Source {
        name: "official".to_string(),
        url: "https://raw.githubusercontent.com/prompthub/layers/main".to_string(),
        default: false,
        auth: None,
    };
    assert_eq!(auth_token_for(&source_with_auth), Some("phrt_test123"));
    assert_eq!(auth_token_for(&source_no_auth), None);
}

#[test]
fn test_push_target_parse_valid() {
    let t = PushTarget::parse("base/my-expert:v1.0").unwrap();
    assert_eq!(t.namespace, "base");
    assert_eq!(t.name, "my-expert");
    assert_eq!(t.version, "v1.0");
}

#[test]
fn test_push_target_parse_missing_version_fails() {
    assert!(PushTarget::parse("base/my-expert").is_err());
}

#[test]
fn test_push_target_parse_missing_namespace_fails() {
    assert!(PushTarget::parse("my-expert:v1.0").is_err());
}

#[test]
fn test_push_target_parse_empty_components_fails() {
    assert!(PushTarget::parse("/:v1.0").is_err());
    assert!(PushTarget::parse("base/:v1.0").is_err());
}

#[test]
fn test_push_target_source_path() {
    let t = PushTarget::parse("base/expert:v2.0").unwrap();
    assert_eq!(t.source_path(), "base/expert");
}

// ── own tests ────────────────────────────────────────────────────────────────

#[test]
fn push_target_errors_are_exact() {
    assert_eq!(PushTarget::parse("base/x").unwrap_err().message(),
        "push target must include version, e.g. base/my-expert:v1.0");
    assert_eq!(PushTarget::parse("x:v1").unwrap_err().message(),
        "push target must include namespace, e.g. base/my-expert:v1.0");
    assert_eq!(PushTarget::parse("base/x:").unwrap_err().message(),
        "push target must be non-empty: namespace/name:version");
}

#[test]
fn push_target_source_path_and_parse_round_trip() {
    let t = PushTarget::parse("team/writer:v3.1").unwrap();
    let again = PushTarget::parse(&format!("{}:{}", t.source_path(), t.version)).unwrap();
    assert_eq!(again.namespace, "team");
    assert_eq!(again.name, "writer");
    assert_eq!(again.version, "v3.1");
}

#[test]
fn find_source_by_url_ignores_trailing_slashes_on_both_sides() {
    let mut cfg = Config {
        sources: vec![
            Source { name: "a".to_string(), url: "https://a.example.com//".to_string(), default: false, auth: None },
            Source { name: "b".to_string(), url: "https://b.example.com".to_string(), default: true, auth: None },
        ],
    };
    assert_eq!(cfg.find_source_by_url("https://a.example.com").unwrap().name, "a");
    assert_eq!(cfg.default_source().unwrap().name, "b");
    {
        let s = cfg.find_source_by_url_mut("https://b.example.com///").unwrap();
        s.auth = Some(SourceAuth { token: "tok".to_string() });
    }
    assert_eq!(cfg.sources[1].auth.as_ref().unwrap().token, "tok");
    assert!(cfg.find_source_by_url_mut("https://c.example.com").is_none());
}

#[test]
fn empty_config_has_no_default_source() {
    let cfg = Config { sources: Vec::new() };
    assert!(cfg.default_source().is_none());
}

#[test]
fn paths_join_with_one_slash() {
    assert_eq!(join_path("/home/u", ".prompthub"), "/home/u/.prompthub");
    assert_eq!(join_path("/home/u/", "layers"), "/home/u/layers");
    assert_eq!(join_path("a", "/abs"), "/abs");
    assert_eq!(strip_trailing_slashes("https://x.io///"), "https://x.io");
}

#[test]
fn pull_plan_uses_the_default_source_and_its_token() {
    let cfg = Config {
        sources: vec![
            Source { name: "a".into(), url: "https://a.io/".into(), default: false, auth: None },
            Source { name: "b".into(), url: "https://b.io".into(), default: true, auth: Some(SourceAuth { token: "t".into() }) },
        ],
    };
    let r = LayerRef { source: "base/w".into(), version: "latest".into() };
    let plan = plan_pull(&r, &cfg).unwrap();
    assert_eq!(plan.source_name, "b");
    assert_eq!(plan.yaml_url, "https://b.io/layers/base/w/v1.0/layer.yaml");
    assert_eq!(plan.prompt_url, "https://b.io/layers/base/w/v1.0/prompt.md");
    assert_eq!(plan.token.as_deref(), Some("t"));
    assert_eq!(plan.version, "v1.0");
    let empty = Config { sources: vec![] };
    assert_eq!(plan_pull(&r, &empty).unwrap_err().message(),
        "No sources configured. Add a source to ~/.prompthub/config.yaml");
}

#[test]
fn push_decisions() {
    let no_auth = Source { name: "my-reg".into(), url: "https://registry.example.com/".into(), default: true, auth: None };
    let err = push_token(&no_auth).unwrap_err().message();
    assert!(err.contains("ph login"), "error must suggest ph login");
    assert_eq!(err, "No auth token for source 'my-reg'. Run `ph login https://registry.example.com/` first.");
    let t = PushTarget::parse("base/expert:v2.0").unwrap();
    assert_eq!(push_url(&no_auth, &t), "https://registry.example.com/layers/base/expert/v2.0");
    let (ld, vd) = push_dirs("layers", &t);
    assert_eq!(ld, "layers/base/expert");
    assert_eq!(vd, "layers/base/expert/v2.0");
    assert!(missing_layer_dir(&ld).message().contains("layer directory not found"));
    assert!(missing_version_dir(&t, &ld).message().contains("version v2.0 not found"));
    assert!(matches!(push_outcome(201, "r", ""), Ok(PushResult::Success(n)) if n == "r"));
    assert!(matches!(push_outcome(409, "r", ""), Ok(PushResult::AlreadyExists(n)) if n == "r"));
    assert_eq!(push_outcome(500, "r", "boom").unwrap_err().message(), "registry error 500: boom");
}

#[test]
fn hub_dir_comes_from_home() {
    assert_eq!(hub_dir_from_home(Some("/home/u".to_string())), "/home/u/.prompthub");
    assert_eq!(hub_dir_from_home(None), "./.prompthub");
}
