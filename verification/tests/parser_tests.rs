use prompthub::parser::{parse, parse_var_override, LayerRef};

#[test]
fn test_parse_basic() {
    let content = r#"
FROM base/code-critic:v1.0
LAYER style/concise:latest
PARAM model "model-large-2"
VAR language "中文"
TASK "审查这段代码"
"#;
    let pf = parse(content).unwrap();
    assert_eq!(pf.from.source, "base/code-critic");
    assert_eq!(pf.from.version, "v1.0");
    assert_eq!(pf.layers.len(), 1);
    assert_eq!(pf.layers[0].source, "style/concise");
    assert_eq!(pf.params.get("model").unwrap(), "model-large-2");
    assert_eq!(pf.vars.get("language").unwrap(), "中文");
    assert_eq!(pf.task.unwrap(), "审查这段代码");
}

#[test]
fn test_parse_multiple_layers() {
    let content = r#"
FROM base/writer:v1.0
LAYER style/academic:v1.0
LAYER lang/english-academic:v1.0
LAYER guard/fact-check:v1.0
"#;
    let pf = parse(content).unwrap();
    assert_eq!(pf.layers.len(), 3);
}

#[test]
fn test_parse_no_from_fails() {
    let content = "LAYER style/concise:latest\n";
    assert!(parse(content).is_err());
}

#[test]
fn test_parse_multiple_from_fails() {
    let content = "FROM base/writer:v1.0\nFROM base/translator:v1.0\n";
    assert!(parse(content).is_err());
}

#[test]
fn test_layer_ref_no_version() {
    let r = LayerRef::parse("base/code-critic").unwrap();
    assert_eq!(r.version, "latest");
}

#[test]
fn test_parse_comments_ignored() {
    let content = "# This is a comment\nFROM base/writer:v1.0\n";
    let pf = parse(content).unwrap();
    assert_eq!(pf.from.source, "base/writer");
}

#[test]
fn test_parse_include() {
    let content = "FROM base/writer:v1.0\nINCLUDE ./context.md\n";
    let pf = parse(content).unwrap();
    assert_eq!(pf.includes.len(), 1);
    assert_eq!(pf.includes[0], "./context.md");
}

#[test]
fn test_parse_mismatched_quote_fails() {
    let content = "FROM base/writer:v1.0\nVAR lang \"español\n";
    assert!(parse(content).is_err(), "mismatched quote should produce a parse error");
}

#[test]
fn test_parse_unknown_directive_error_lists_valid() {
    let content = "FROM base/writer:v1.0\nFILTER something\n";
    let err = parse(content).unwrap_err();
    let msg = err.message();
    assert!(msg.contains("FROM") && msg.contains("LAYER"),
        "error message should list valid directives, got: {}", msg);
}

#[test]
fn test_parse_include_quoted() {
    let content = "FROM base/writer:v1.0\nINCLUDE \"./my context.md\"\n";
    let pf = parse(content).unwrap();
    assert_eq!(pf.includes[0], "./my context.md");
}

#[test]
fn test_parse_include_mismatched_quote_fails() {
    let content = "FROM base/writer:v1.0\nINCLUDE \"./context.md\n";
    assert!(parse(content).is_err(),
        "INCLUDE with mismatched quote should produce a parse error");
}

#[test]
fn test_parse_multiple_task_fails() {
    let content = "FROM base/writer:v1.0\nTASK \"First task\"\nTASK \"Second task\"\n";
    let err = parse(content).unwrap_err();
    let msg = err.message();
    assert!(msg.contains("TASK") || msg.contains("task"),
        "error should mention TASK directive, got: {}", msg);
}

#[test]
fn test_layer_ref_display_impl() {
    let r = LayerRef { source: "base/code-critic".to_string(), version: "v1.0".to_string() };
    assert_eq!(r.display(), "base/code-critic:v1.0",
        "Display should include version when not 'latest'");

    let r_latest = LayerRef { source: "base/writer".to_string(), version: "latest".to_string() };
    assert_eq!(r_latest.display(), "base/writer",
        "Display should omit version when it is 'latest'");
}

#[test]
fn test_layer_ref_parse_rejects_path_traversal() {
    let result = LayerRef::parse("../evil:v1.0");
    assert!(result.is_err(),
        "layer ref with '..' should be rejected to prevent path traversal");
    let msg = result.unwrap_err().message();
    assert!(msg.contains("invalid") || msg.contains(".."),
        "error should mention invalid path, got: {}", msg);
}

#[test]
fn test_layer_ref_parse_rejects_dot_component() {
    let result = LayerRef::parse("./base/writer:v1.0");
    assert!(result.is_err(),
        "layer ref starting with '.' component should be rejected");
}

#[test]
fn test_layer_ref_parse_allows_normal_namespaced_ref() {
    let r = LayerRef::parse("base/code-critic:v1.0").unwrap();
    assert_eq!(r.source, "base/code-critic");
    assert_eq!(r.version, "v1.0");
}

#[test]
fn test_parse_var_override_basic() {
    let (name, value) = parse_var_override("language=Spanish").unwrap();
    assert_eq!(name, "language");
    assert_eq!(value, "Spanish");
}

#[test]
fn test_parse_var_override_value_with_equals() {
    let (name, value) = parse_var_override("url=https://example.com?a=1&b=2").unwrap();
    assert_eq!(name, "url");
    assert_eq!(value, "https://example.com?a=1&b=2");
}

#[test]
fn test_parse_var_override_empty_value_allowed() {
    let (name, value) = parse_var_override("flag=").unwrap();
    assert_eq!(name, "flag");
    assert_eq!(value, "");
}

#[test]
fn test_parse_var_override_missing_equals_fails() {
    let result = parse_var_override("noequalssign");
    assert!(result.is_err(), "missing '=' should be a parse error");
    let msg = result.unwrap_err().message();
    assert!(msg.contains("NAME=VALUE") || msg.contains("="),
        "error should mention expected format, got: {}", msg);
}

#[test]
fn test_parse_var_override_empty_name_fails() {
    let result = parse_var_override("=value");
    assert!(result.is_err(), "empty variable name should be a parse error");
}

#[test]
fn test_from_path_traversal_rejected() {
    let pf_content = "FROM ../evil/layer:v1.0\n";
    let result = parse(pf_content);
    assert!(result.is_err(),
        "FROM with path-traversal component should be a parse error");
    let err_msg = result.unwrap_err().message();
    assert!(err_msg.contains("invalid") || err_msg.contains("..") || err_msg.contains("path"),
        "error message should indicate path traversal issue, got: {}", err_msg);
}

// ── own tests ────────────────────────────────────────────────────────────────

#[test]
fn layer_ref_display_then_parse_gives_back_the_reference() {
    let r = LayerRef::parse("style/concise:v2.1").unwrap();
    let again = LayerRef::parse(&r.display()).unwrap();
    assert_eq!(again.source, "style/concise");
    assert_eq!(again.version, "v2.1");
}

#[test]
fn parse_collects_params_vars_and_task_exactly() {
    let pf = parse("FROM a/b\nPARAM temperature \"0.3\"\nVAR x y\nTASK \"do it\"\n").unwrap();
    assert_eq!(pf.from.source, "a/b");
    assert_eq!(pf.from.version, "latest");
    assert_eq!(pf.params.get("temperature").unwrap(), "0.3");
    assert_eq!(pf.vars.get("x").unwrap(), "y");
    assert_eq!(pf.task.as_deref(), Some("do it"));
    assert!(pf.includes.is_empty());
}

#[test]
fn parse_error_messages_are_exact() {
    let e = parse("LAYER a/b\n").unwrap_err();
    assert!(e.message().starts_with("Parse error in Promptfile: "));
    let e2 = parse_var_override("novalue").unwrap_err();
    assert!(e2.message().starts_with("Parse error in Promptfile: "));
}

#[test]
fn directive_before_from_is_refused() {
    let err = parse("LAYER style/concise:v1.0\nFROM base/writer:v1.0\n").unwrap_err();
    assert_eq!(err.message(), "Parse error in Promptfile: Missing FROM directive; Promptfile must start with FROM");
    assert!(parse("VAR lang \"English\"\nFROM base/writer:v1.0\n").is_err());
}

#[test]
fn comments_may_come_before_from() {
    let pf = parse("# a comment\n\nFROM base/writer:v1.0\nLAYER style/concise:v1.0\n").unwrap();
    assert_eq!(pf.from.source, "base/writer");
    assert_eq!(pf.layers.len(), 1);
}

#[test]
fn displayed_reference_parses_back() {
    for text in ["base/writer:v1.0", " base/writer : v2 ", "style/concise", "a/b:latest"] {
        let r = LayerRef::parse(text).unwrap();
        let back = LayerRef::parse(&r.display()).unwrap();
        assert_eq!((back.source, back.version), (r.source, r.version));
    }
}
