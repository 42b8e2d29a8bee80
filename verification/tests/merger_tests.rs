use prompthub::layer::{Layer, LayerMeta};
use prompthub::merger::merge_layers;
use prompthub::parser::{parse, parse_var_override};
use prompthub::renderer::render_variables;
use prompthub::strmap::StrMap;

fn make_layer(name: &str, namespace: &str, sections: Vec<(&str, &str)>, conflicts: Vec<&str>) -> Layer {
    let mut section_map = StrMap::new();
    let section_names: Vec<String> = sections.iter().map(|(n, _)| n.to_string()).collect();
    for (name, content) in sections {
        section_map.insert(name.to_string(), content.to_string());
    }
    Layer {
        meta: LayerMeta {
            name: name.to_string(),
            namespace: namespace.to_string(),
            version: "v1.0".to_string(),
            description: String::new(),
            author: String::new(),
            tags: Vec::new(),
            sections: section_names,
            conflicts: conflicts.iter().map(|s| s.to_string()).collect(),
            requires: Vec::new(),
            models: Vec::new(),
        },
        content: String::new(),
        sections: section_map,
    }
}

/// A layer as the loader assembles it from `layer.yaml` and `prompt.md`.
fn loaded_layer(namespace: &str, name: &str, sections: &[(&str, &str)], conflicts: &[&str]) -> Layer {
    let mut prompt = String::new();
    for (section_name, content) in sections {
        prompt.push_str(&format!("[{}]\n{}\n\n", section_name, content));
    }
    let meta = LayerMeta {
        name: name.to_string(),
        namespace: namespace.to_string(),
        version: "v1.0".to_string(),
        description: format!("Test {}", name),
        author: "test".to_string(),
        tags: vec!["test".to_string()],
        sections: sections.iter().map(|(n, _)| n.to_string()).collect(),
        conflicts: conflicts.iter().map(|s| s.to_string()).collect(),
        requires: Vec::new(),
        models: Vec::new(),
    };
    Layer::from_parts(meta, prompt, "layer.yaml").unwrap().0
}

#[test]
fn test_merge_new_sections_appended() {
    let base = make_layer("critic", "base", vec![("role", "You are a critic.")], vec![]);
    let extra = make_layer("concise", "style", vec![("constraints", "Be concise.")], vec![]);
    let result = merge_layers(&base, &[extra], StrMap::new()).unwrap();
    assert!(result.sections.contains_key("role"));
    assert!(result.sections.contains_key("constraints"));
    assert!(result.warnings.is_empty());
}

#[test]
fn test_merge_same_section_overridden() {
    let base = make_layer("critic", "base", vec![
        ("role", "You are a critic."),
        ("constraints", "Original constraints."),
    ], vec![]);
    let extra = make_layer("override", "style", vec![("constraints", "New constraints.")], vec![]);
    let result = merge_layers(&base, &[extra], StrMap::new()).unwrap();
    assert_eq!(result.sections.get("constraints").unwrap(), "New constraints.");
    assert_eq!(result.warnings.len(), 1);
}

#[test]
fn merger_test_conflict_detection() {
    let base = make_layer("writer", "base", vec![("role", "You are a writer.")], vec!["base/translator"]);
    let extra = make_layer("translator", "base", vec![("role", "You are a translator.")], vec![]);
    let result = merge_layers(&base, &[extra], StrMap::new());
    assert!(result.is_err());
}

#[test]
fn test_section_order_maintained() {
    let base = make_layer("critic", "base", vec![
        ("role", "Role content."),
        ("constraints", "Constraints content."),
        ("output-format", "Output format."),
    ], vec![]);
    let result = merge_layers(&base, &[], StrMap::new()).unwrap();
    let text = result.to_text();
    let role_pos = text.find("Role content.").unwrap();
    let constraints_pos = text.find("Constraints content.").unwrap();
    let output_pos = text.find("Output format.").unwrap();
    assert!(role_pos < constraints_pos);
    assert!(constraints_pos < output_pos);
}

#[test]
fn test_single_from_build() {
    let pf = parse("FROM base/critic:v1.0\n").unwrap();
    assert_eq!(pf.from.source, "base/critic");
    assert_eq!(pf.from.version, "v1.0");
    assert!(pf.layers.is_empty());
    let base = loaded_layer("base", "critic", &[
        ("role", "You are a code critic."),
        ("constraints", "Be concise."),
    ], &[]);
    assert!(base.sections.contains_key("role"));
    assert!(base.sections.contains_key("constraints"));
    let merged = merge_layers(&base, &[], StrMap::new()).unwrap();
    let text = merged.to_text();
    assert!(text.contains("You are a code critic."));
    assert!(text.contains("Be concise."));
}

#[test]
fn test_multi_layer_section_override() {
    let base = loaded_layer("base", "writer", &[
        ("role", "You are a writer."),
        ("constraints", "Write clearly."),
    ], &[]);
    let extra = loaded_layer("style", "concise", &[("constraints", "Be very concise. Under 100 words.")], &[]);
    let merged = merge_layers(&base, &[extra], StrMap::new()).unwrap();
    assert_eq!(merged.sections.get("constraints").unwrap(), "Be very concise. Under 100 words.");
    assert!(merged.sections.get("role").unwrap().contains("You are a writer."));
    assert_eq!(merged.warnings.len(), 1);
    assert!(merged.warnings[0].contains("constraints"));
}

#[test]
fn test_var_substitution() {
    let pf = parse("FROM base/translator:v1.0\nVAR target_lang \"Spanish\"\nTASK \"Translate: hello\"\n").unwrap();
    assert_eq!(pf.vars.get("target_lang").unwrap(), "Spanish");
    assert_eq!(pf.task.as_deref(), Some("Translate: hello"));
    let base = loaded_layer("base", "translator", &[("role", "Translate to ${target_lang}.")], &[]);
    let merged = merge_layers(&base, &[], pf.params.clone()).unwrap();
    let (text, undef) = render_variables(&merged, &pf.vars, pf.task.as_deref(), &[]).unwrap();
    assert!(undef.is_empty(), "unexpected undefined vars: {:?}", undef);
    assert!(text.contains("Translate to Spanish."), "Got: {}", text);
    assert!(text.contains("Translate: hello"), "Got: {}", text);
}

#[test]
fn test_include_file() {
    let pf = parse("FROM base/analyst:v1.0\nINCLUDE ./context.md\n").unwrap();
    assert_eq!(pf.includes.len(), 1);
    let include_content = "## Data Context\nThe dataset has 1000 rows.".to_string();
    let includes = vec![(pf.includes[0].clone(), include_content)];
    let base = loaded_layer("base", "analyst", &[("role", "You are a data analyst.")], &[]);
    let merged = merge_layers(&base, &[], StrMap::new()).unwrap();
    let (text, _undef) = render_variables(&merged, &pf.vars, None, &includes).unwrap();
    assert!(text.contains("data analyst"), "Got: {}", text);
    assert!(text.contains("1000 rows"), "Got: {}", text);
}

#[test]
fn integration_test_conflict_detection() {
    let base = loaded_layer("base", "writer", &[("role", "You are a writer.")], &["base/translator"]);
    let extra = loaded_layer("base", "translator", &[("role", "You are a translator.")], &[]);
    let result = merge_layers(&base, &[extra], StrMap::new());
    assert!(result.is_err(), "Expected conflict error");
    let err_str = result.unwrap_err().message();
    assert!(err_str.contains("conflict") || err_str.contains("Conflict"), "Got: {}", err_str);
}

#[test]
fn test_section_override_warning_generated() {
    let pf = parse("FROM base/writer:v1.0\nLAYER style/override-style:v1.0\n").unwrap();
    assert_eq!(pf.layers.len(), 1);
    let base = loaded_layer("base", "writer", &[
        ("role", "You are a writer."),
        ("constraints", "Original constraint."),
    ], &[]);
    let extra = loaded_layer("style", "override-style", &[("constraints", "Overriding constraint.")], &[]);
    let merged = merge_layers(&base, &[extra], StrMap::new()).unwrap();
    assert!(!merged.warnings.is_empty(), "Overriding a section should generate a warning");
    assert!(merged.warnings[0].contains("constraints"),
        "Warning should mention the overridden section name");
}

#[test]
fn test_undefined_var_warning_returned() {
    let pf = parse("FROM base/template:v1.0\n").unwrap();
    let base = loaded_layer("base", "template", &[("role", "Answer in ${missing_var}.")], &[]);
    let merged = merge_layers(&base, &[], pf.params.clone()).unwrap();
    let (text, undef) = render_variables(&merged, &pf.vars, None, &[]).unwrap();
    assert!(text.contains("${missing_var}"), "undefined var should stay as-is in output");
    assert_eq!(undef, vec!["missing_var".to_string()],
        "undefined variable name should be reported in the warnings list");
}

#[test]
fn test_three_layer_merge() {
    let pf = parse("FROM base/writer:v1.0\nLAYER style/concise:v1.0\nLAYER lang/spanish:v1.0\n").unwrap();
    assert_eq!(pf.layers.len(), 2, "should have 2 additional layers");
    let base = loaded_layer("base", "writer", &[
        ("role", "You are a professional writer."),
        ("constraints", "Write clearly."),
        ("output-format", "Use paragraphs."),
    ], &[]);
    let layer2 = loaded_layer("style", "concise", &[("constraints", "Be very concise. Under 50 words.")], &[]);
    let layer3 = loaded_layer("lang", "spanish", &[("language", "Respond in Spanish.")], &[]);
    let merged = merge_layers(&base, &[layer2, layer3], StrMap::new()).unwrap();
    assert_eq!(merged.sections.get("constraints").unwrap(), "Be very concise. Under 50 words.",
        "constraints should be overridden by second layer");
    assert!(merged.sections.get("role").unwrap().contains("professional writer"),
        "role section should be preserved from base layer");
    assert_eq!(merged.sections.get("language").unwrap(), "Respond in Spanish.",
        "language section should be added by third layer");
    assert!(merged.sections.get("output-format").unwrap().contains("paragraphs"),
        "output-format section should be preserved from base layer");
    assert_eq!(merged.warnings.len(), 1, "should have exactly one override warning");
    assert!(merged.warnings[0].contains("constraints"), "warning should mention the overridden section");
    let text = merged.to_text();
    assert!(text.contains("professional writer"), "role in text");
    assert!(text.contains("Under 50 words"), "overridden constraints in text");
    assert!(text.contains("Spanish"), "language section in text");
}

#[test]
fn test_additional_layer_declares_conflict() {
    let base = loaded_layer("base", "writer", &[("role", "You are a writer.")], &[]);
    let extra = loaded_layer("base", "translator", &[("role", "You are a translator.")], &["base/writer"]);
    let result = merge_layers(&base, &[extra], StrMap::new());
    assert!(result.is_err(), "conflict declared by additional layer should also be detected");
}

#[test]
fn test_param_directives_in_promptfile() {
    let pf = parse("FROM base/assistant:v1.0\nPARAM model \"model-large-2\"\nPARAM temperature \"0.3\"\n").unwrap();
    assert_eq!(pf.params.get("model").map(String::as_str), Some("model-large-2"),
        "PARAM model should be parsed from Promptfile");
    assert_eq!(pf.params.get("temperature").map(String::as_str), Some("0.3"),
        "PARAM temperature should be parsed from Promptfile");
    let base = loaded_layer("base", "assistant", &[("role", "You are a helpful assistant.")], &[]);
    let merged = merge_layers(&base, &[], pf.params.clone()).unwrap();
    assert_eq!(merged.params.get("model").map(String::as_str), Some("model-large-2"),
        "model param should survive merge");
    assert_eq!(merged.params.get("temperature").map(String::as_str), Some("0.3"),
        "temperature param should survive merge");
}

#[test]
fn test_var_override_overrides_promptfile_var() {
    let mut pf = parse("FROM base/translator:v1.0\nVAR target_lang \"French\"\n").unwrap();
    let (name, value) = parse_var_override("target_lang=German").unwrap();
    pf.vars.insert(name, value);
    let base = loaded_layer("base", "translator", &[("role", "Translate to ${target_lang}.")], &[]);
    let merged = merge_layers(&base, &[], StrMap::new()).unwrap();
    let (text, undef) = render_variables(&merged, &pf.vars, None, &[]).unwrap();
    assert!(undef.is_empty(), "no undefined vars expected");
    assert!(text.contains("Translate to German."),
        "CLI override should replace Promptfile VAR value; got: {}", text);
    assert!(!text.contains("French"),
        "Promptfile default should be replaced by CLI override; got: {}", text);
}

// ── own tests ────────────────────────────────────────────────────────────────

#[test]
fn later_layer_wins_for_each_section_and_warning_is_exact() {
    let base = make_layer("w", "base", vec![("role", "A"), ("style", "B")], vec![]);
    let l2 = make_layer("x", "s", vec![("style", "C")], vec![]);
    let l3 = make_layer("y", "t", vec![("style", "D"), ("extra", "E")], vec![]);
    let m = merge_layers(&base, &[l2, l3], StrMap::new()).unwrap();
    assert_eq!(m.sections.get("style").unwrap(), "D");
    assert_eq!(m.sections.get("role").unwrap(), "A");
    assert_eq!(m.sections.get("extra").unwrap(), "E");
    assert_eq!(m.section_order, vec!["role".to_string(), "style".to_string(), "extra".to_string()]);
    assert_eq!(m.warnings, vec![
        "Section 'style' overridden by layer 's/x'".to_string(),
        "Section 'style' overridden by layer 't/y'".to_string(),
    ]);
    assert_eq!(m.to_text(), "A\n\nD\n\nE");
}

#[test]
fn conflict_error_names_both_layers() {
    let base = make_layer("writer", "base", vec![("role", "R")], vec![]);
    let extra = make_layer("translator", "base", vec![("role", "T")], vec!["writer"]);
    let err = merge_layers(&base, &[extra], StrMap::new()).unwrap_err();
    assert_eq!(err.message(), "Conflict detected between layers: base/translator conflicts with base/writer");
}

#[test]
fn to_text_skips_empty_sections_and_sorts_the_rest() {
    let base = make_layer("w", "base", vec![("b", "B"), ("a", "")], vec![]);
    let mut m = merge_layers(&base, &[], StrMap::new()).unwrap();
    m.section_order = vec!["a".to_string()];
    assert_eq!(m.to_text(), "B");
}

#[test]
fn merge_depends_only_on_the_section_texts() {
    let base1 = make_layer("critic", "base", vec![("role", "R"), ("rules", "X")], vec![]);
    let base2 = make_layer("critic", "base", vec![("role", "R"), ("rules", "X")], vec![]);
    let extra1 = make_layer("concise", "style", vec![("tone", "Brief."), ("rules", "Y")], vec![]);
    let extra2 = make_layer("concise", "style", vec![("rules", "Y"), ("tone", "Brief.")], vec![]);
    let m1 = merge_layers(&base1, &[extra1], StrMap::new()).unwrap();
    let m2 = merge_layers(&base2, &[extra2], StrMap::new()).unwrap();
    for k in ["role", "rules", "tone", "other"] {
        assert_eq!(m1.sections.get(k), m2.sections.get(k), "section {}", k);
        assert_eq!(m1.section_order.iter().any(|s| s == k), m2.section_order.iter().any(|s| s == k));
    }
    assert_eq!(m1.sections.get("rules").map(|s| s.as_str()), Some("Y"));
    assert_eq!(m1.section_order, m2.section_order);
    assert_eq!(m1.warnings, m2.warnings);
}

#[test]
fn new_sections_follow_name_order_whatever_the_map_order() {
    let base = make_layer("critic", "base", vec![], vec![]);
    let extra1 = make_layer("extra", "style", vec![("x", "1"), ("y", "2")], vec![]);
    let extra2 = make_layer("extra", "style", vec![("y", "2"), ("x", "1")], vec![]);
    let m1 = merge_layers(&base, &[extra1], StrMap::new()).unwrap();
    let m2 = merge_layers(&base, &[extra2], StrMap::new()).unwrap();
    assert_eq!(m1.section_order, vec!["x".to_string(), "y".to_string()]);
    assert_eq!(m1.section_order, m2.section_order);
    assert_eq!(m1.to_text(), m2.to_text());
}
