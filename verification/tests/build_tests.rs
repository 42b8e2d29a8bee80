use prompthub::commands::{
    diff_lines, layer_listing, layer_matches_keyword, new_layer_prompt, new_layer_yaml_text,
    parse_layer_name, validate_layer, DiffLine,
};
use prompthub::layer::{Layer, LayerMeta};
use prompthub::parser::parse;
use prompthub::pipeline::{apply_var_overrides, build_prompt, used_layer_names};
use prompthub::strmap::StrMap;

fn layer(ns: &str, name: &str, prompt: &str, sections: &[&str], conflicts: &[&str]) -> Layer {
    let meta = LayerMeta {
        name: name.to_string(),
        namespace: ns.to_string(),
        version: "v1.0".to_string(),
        description: String::new(),
        author: String::new(),
        tags: Vec::new(),
        sections: sections.iter().map(|s| s.to_string()).collect(),
        conflicts: conflicts.iter().map(|s| s.to_string()).collect(),
        requires: Vec::new(),
        models: Vec::new(),
    };
    Layer::from_parts(meta, prompt.to_string(), "layer.yaml").unwrap().0
}

#[test]
fn var_overrides_apply_in_order_and_report_the_bad_one() {
    let mut vars = StrMap::new();
    vars.insert("lang".to_string(), "French".to_string());
    let ok = vec!["lang=German".to_string(), "x=a=b".to_string()];
    apply_var_overrides(&mut vars, &ok, "--var").unwrap();
    assert_eq!(vars.get("lang").unwrap(), "German");
    assert_eq!(vars.get("x").unwrap(), "a=b");
    let bad = vec!["y=1".to_string(), "oops".to_string()];
    let err = apply_var_overrides(&mut vars, &bad, "--var").unwrap_err();
    assert_eq!(err.message(), "Invalid --var format 'oops'. Use NAME=VALUE");
}

#[test]
fn build_renders_task_and_collects_warnings() {
    let pf = parse("FROM base/t:v1.0\nLAYER style/s\nVAR who \"Ann\"\nPARAM model \"m\"\nTASK \"Greet ${who}\"\n").unwrap();
    let base = layer("base", "t", "[role]\nHello ${who} and ${nobody}.\n[style]\nPlain.\n", &["role", "style"], &[]);
    let extra = layer("style", "s", "[style]\nFancy.\n", &["style"], &[]);
    let includes = vec![("./ctx.md".to_string(), "Context.".to_string())];
    let b = build_prompt(&pf, &base, &vec![extra], &includes).unwrap();
    assert_eq!(b.prompt, "Hello Ann and ${nobody}.\n\nFancy.\n\nContext.\n\n---\n\nGreet Ann");
    assert_eq!(b.layers, vec!["base/t:v1.0".to_string(), "style/s".to_string()]);
    assert_eq!(b.warnings, vec![
        "Section 'style' overridden by layer 'style/s'".to_string(),
        "Undefined variable: ${nobody}".to_string(),
    ]);
    assert_eq!(b.params.get("model").unwrap(), "m");
}

#[test]
fn build_refuses_conflicting_layers() {
    let pf = parse("FROM base/a\nLAYER base/b\n").unwrap();
    let a = layer("base", "a", "[r]\nA\n", &["r"], &["b"]);
    let b = layer("base", "b", "[r]\nB\n", &["r"], &[]);
    let err = build_prompt(&pf, &a, &vec![b], &Vec::new()).unwrap_err();
    assert_eq!(err.message(), "Conflict detected between layers: base/a conflicts with base/b");
    assert_eq!(used_layer_names(&pf), vec!["base/a".to_string(), "base/b".to_string()]);
}

#[test]
fn layer_names_from_the_command_line() {
    assert_eq!(parse_layer_name("base/writer"), ("base".to_string(), "writer".to_string()));
    assert_eq!(parse_layer_name("writer"), ("custom".to_string(), "writer".to_string()));
    assert_eq!(parse_layer_name("a/b/c"), ("a".to_string(), "b/c".to_string()));
}

#[test]
fn new_layer_templates() {
    let yaml = new_layer_yaml_text("base", "writer");
    assert!(yaml.starts_with("name: writer\nnamespace: base\nversion: v1.0\n"));
    assert!(yaml.ends_with("models: []\n"));
    let prompt = new_layer_prompt();
    let (sections, _) = prompthub::layer::parse_sections(&prompt);
    assert_eq!(sections.len(), 3);
}

#[test]
fn validation_lists_errors_and_warnings() {
    let good = layer("base", "w", "[role]\nR\n", &["role", "missing"], &[]);
    let (errors, warnings) = validate_layer(&good);
    assert!(errors.is_empty());
    assert_eq!(warnings, vec![
        "description is empty".to_string(),
        "declared section 'missing' not found in prompt.md".to_string(),
    ]);
    let mut bad = layer("", "w", "", &[], &[]);
    bad.meta.name = String::new();
    bad.meta.description = "d".to_string();
    let (errors, warnings) = validate_layer(&bad);
    assert_eq!(errors, vec!["name is required".to_string(), "prompt.md is empty".to_string()]);
    assert_eq!(warnings, vec!["namespace is empty (layers should have a namespace for proper resolution)".to_string()]);
}

#[test]
fn keyword_search_is_case_insensitive() {
    let mut m = layer("base", "w", "[r]\nx\n", &[], &[]).meta;
    m.description = "A Writer".to_string();
    m.tags = vec!["Academic".to_string()];
    assert!(layer_matches_keyword("base/w/v1.0", &m, "WRITER"));
    assert!(layer_matches_keyword("base/w/v1.0", &m, "academic"));
    assert!(layer_matches_keyword("Base/W", &m, "base/w"));
    assert!(!layer_matches_keyword("base/w", &m, "poetry"));
}

#[test]
fn listing_marks_local_layers_and_filters_by_namespace() {
    let local = vec![("base/a/v1.0".to_string(), "layers/base/a/v1.0".to_string())];
    let global = vec![
        ("style/b/v1.0".to_string(), "/g/style/b/v1.0".to_string()),
        ("base/c/v1.0".to_string(), "/g/base/c/v1.0".to_string()),
    ];
    let all = layer_listing(&local, &global, None);
    assert_eq!(all.len(), 3);
    assert_eq!(all[0].0, "base/a/v1.0 (local)");
    let base = layer_listing(&local, &global, Some("base"));
    assert_eq!(base, vec![
        ("base/a/v1.0 (local)".to_string(), "layers/base/a/v1.0".to_string()),
        ("base/c/v1.0".to_string(), "/g/base/c/v1.0".to_string()),
    ]);
}

#[test]
fn diffs_go_line_by_line() {
    let d = diff_lines("a\nb\nc", "a\nx");
    assert_eq!(d, vec![
        DiffLine::Same("a".to_string()),
        DiffLine::Removed("b".to_string()),
        DiffLine::Added("x".to_string()),
        DiffLine::Removed("c".to_string()),
    ]);
    assert_eq!(diff_lines("", "n"), vec![DiffLine::Added("n".to_string())]);
}
