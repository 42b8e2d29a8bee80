use prompthub::layer::{
    parse_section_header, parse_sections, sections_to_content, Layer, LayerMeta, MAX_SECTION_NAME_LEN,
};
use prompthub::strmap::StrMap;

fn meta(name: &str, namespace: &str, version: &str) -> LayerMeta {
    LayerMeta {
        name: name.to_string(),
        namespace: namespace.to_string(),
        version: version.to_string(),
        description: String::new(),
        author: String::new(),
        tags: Vec::new(),
        sections: Vec::new(),
        conflicts: Vec::new(),
        requires: Vec::new(),
        models: Vec::new(),
    }
}

#[test]
fn layer_test_parse_sections_basic() {
    let content = r#"[role]
You are an expert.

[constraints]
- Be concise
- Be accurate

[output-format]
Use markdown."#;
    let (sections, warnings) = parse_sections(content);
    assert_eq!(sections.len(), 3);
    assert!(warnings.is_empty());
    assert!(sections.contains_key("role"));
    assert!(sections.contains_key("constraints"));
    assert!(sections.contains_key("output-format"));
    assert!(sections.get("role").unwrap().contains("You are an expert"));
    assert!(sections.get("constraints").unwrap().contains("Be concise"));
}

#[test]
fn layer_test_parse_section_header() {
    assert_eq!(parse_section_header("[role]"), Some("role".to_string()));
    assert_eq!(parse_section_header("[output-format]"), Some("output-format".to_string()));
    assert_eq!(parse_section_header("  [role]  "), Some("role".to_string()));
    assert_eq!(parse_section_header("not a header"), None);
    assert_eq!(parse_section_header("[]"), None);
    assert_eq!(parse_section_header("[role"), None);
}

#[test]
fn layer_test_sections_to_content() {
    let mut sections = StrMap::new();
    sections.insert("role".to_string(), "You are an expert.".to_string());
    sections.insert("constraints".to_string(), "- Be concise".to_string());

    let order = vec!["role".to_string(), "constraints".to_string()];
    let content = sections_to_content(&sections, &order);
    assert!(content.contains("[role]"));
    assert!(content.contains("[constraints]"));
    let role_pos = content.find("[role]").unwrap();
    let constraints_pos = content.find("[constraints]").unwrap();
    assert!(role_pos < constraints_pos);
}

#[test]
fn test_parse_sections_duplicate_warning() {
    let content = "[role]\nFirst definition.\n\n[role]\nSecond definition.\n";
    let (sections, warnings) = parse_sections(content);
    assert_eq!(sections.get("role").unwrap(), "Second definition.");
    assert_eq!(warnings.len(), 1, "one duplicate warning expected");
    assert!(warnings[0].contains("role"), "warning should mention section name");
}

#[test]
fn test_layer_display() {
    let layer = Layer {
        meta: meta("code-critic", "base", "v1.2"),
        content: String::new(),
        sections: StrMap::new(),
    };
    let displayed = layer.display();
    assert_eq!(displayed, "base/code-critic (v1.2)",
        "Display should show full_name and version");
}

#[test]
fn test_layer_display_no_namespace() {
    let layer = Layer {
        meta: meta("my-layer", "", "v2.0"),
        content: String::new(),
        sections: StrMap::new(),
    };
    let displayed = layer.display();
    assert_eq!(displayed, "my-layer (v2.0)",
        "Display without namespace should omit namespace prefix");
}

#[test]
fn test_parse_section_header_max_length() {
    let ok_name = "a".repeat(MAX_SECTION_NAME_LEN);
    let ok_header = format!("[{}]", ok_name);
    assert!(parse_section_header(&ok_header).is_some(),
        "name at max length should be accepted");
    let long_name = "a".repeat(MAX_SECTION_NAME_LEN + 1);
    let long_header = format!("[{}]", long_name);
    assert_eq!(parse_section_header(&long_header), None,
        "name exceeding max length should be rejected");
}

#[test]
fn test_sections_to_content_remaining_sections_sorted() {
    let mut sections = StrMap::new();
    sections.insert("role".to_string(), "Role content.".to_string());
    sections.insert("zebra".to_string(), "Zebra content.".to_string());
    sections.insert("alpha".to_string(), "Alpha content.".to_string());
    let order = vec!["role".to_string()];
    let content = sections_to_content(&sections, &order);
    let role_pos = content.find("Role content.").expect("role section missing");
    let alpha_pos = content.find("Alpha content.").expect("alpha section missing");
    let zebra_pos = content.find("Zebra content.").expect("zebra section missing");
    assert!(role_pos < alpha_pos, "in-order section should precede remaining sections");
    assert!(alpha_pos < zebra_pos, "remaining sections should be sorted alphabetically");
}

#[test]
fn test_load_from_dir_missing_name_errors() {
    let m = meta("", "", "v1.0");
    let result = Layer::from_parts(m, "[role]\nContent.\n".to_string(), "layer.yaml");
    assert!(result.is_err(), "empty name should produce a validation error");
    let msg = result.unwrap_err().message();
    assert!(msg.contains("name") || msg.contains("required"),
        "error should mention 'name' or 'required', got: {}", msg);
}

#[test]
fn test_load_from_dir_missing_version_errors() {
    let m = meta("my-layer", "", "");
    let result = Layer::from_parts(m, "[role]\nContent.\n".to_string(), "layer.yaml");
    assert!(result.is_err(), "empty version should produce a validation error");
    let msg = result.unwrap_err().message();
    assert!(msg.contains("version") || msg.contains("required"),
        "error should mention 'version' or 'required', got: {}", msg);
}

// ── own tests ────────────────────────────────────────────────────────────────

#[test]
fn layer_full_name_joins_namespace_and_name() {
    let layer = Layer { meta: meta("writer", "base", "v1.0"), content: String::new(), sections: StrMap::new() };
    assert_eq!(layer.full_name(), "base/writer");
    let bare = Layer { meta: meta("writer", "", "v1.0"), content: String::new(), sections: StrMap::new() };
    assert_eq!(bare.full_name(), "writer");
}

#[test]
fn sections_round_trip_through_content() {
    let (sections, _) = parse_sections("[role]\nBe helpful.\n\n[style]\nBe brief.\n");
    let order = vec!["role".to_string(), "style".to_string()];
    let text = sections_to_content(&sections, &order);
    let (again, warnings) = parse_sections(&text);
    assert!(warnings.is_empty());
    assert_eq!(again.get("role").unwrap(), "Be helpful.");
    assert_eq!(again.get("style").unwrap(), "Be brief.");
}

#[test]
fn section_header_is_lower_cased_and_checked() {
    assert_eq!(parse_section_header("[Role]"), Some("role".to_string()));
    assert_eq!(parse_section_header("[has space]"), None);
    assert_eq!(parse_section_header("[a_b-9]"), Some("a_b-9".to_string()));
}

#[test]
fn from_parts_keeps_meta_and_parses_sections() {
    let (layer, warnings) = Layer::from_parts(meta("w", "base", "v1.0"), "[role]\nX\n[role]\nY\n".to_string(), "p/layer.yaml").unwrap();
    assert_eq!(warnings.len(), 1);
    assert_eq!(layer.sections.get("role").unwrap(), "Y");
    assert_eq!(layer.meta.name, "w");
    let err = Layer::from_parts(meta("", "base", "v1.0"), String::new(), "p/layer.yaml").unwrap_err();
    assert_eq!(err.message(), "Validation error: p/layer.yaml: 'name' field is required");
}

#[test]
fn written_sections_read_back_the_same() {
    let mut m = StrMap::new();
    m.insert("role".to_string(), "You are a writer.\nBe precise.".to_string());
    m.insert("constraints".to_string(), "- be brief".to_string());
    m.insert("empty".to_string(), String::new());
    m.insert("extra".to_string(), "More text.".to_string());
    let order = vec!["role".to_string(), "missing".to_string(), "constraints".to_string()];
    let content = sections_to_content(&m, &order);
    let (back, warnings) = parse_sections(&content);
    assert!(warnings.is_empty());
    assert_eq!(back.len(), 4);
    for k in ["role", "constraints", "empty", "extra"] {
        assert_eq!(back.get(k), m.get(k), "section {}", k);
    }
}
