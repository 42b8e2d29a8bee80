use prompthub::export::{
    add_requirement, collapse_blank_lines, core_layer_meta, core_parts, core_ref, fix_layer_meta,
    parse_skill_md, remove_common_bodies, skill_to_layer, strip_frontmatter,
    export_steps, ExportSource, ExportStep,
};
use prompthub::layer::LayerMeta;

fn empty_meta() -> LayerMeta {
    LayerMeta {
        name: "writer".to_string(),
        namespace: String::new(),
        version: String::new(),
        description: String::new(),
        author: String::new(),
        tags: Vec::new(),
        sections: Vec::new(),
        conflicts: Vec::new(),
        requires: Vec::new(),
        models: Vec::new(),
    }
}

#[test]
fn test_parse_skill_md_with_frontmatter() {
    let content = r#"---
name: humanizer
description: Rewrites text to sound more natural
argument-hint: "<text to humanize>"
---
[instructions]
Rewrite the following text.
"#;
    let (fm, body) = parse_skill_md(content).unwrap();
    assert_eq!(fm.name, "humanizer");
    assert_eq!(fm.description, "Rewrites text to sound more natural");
    assert_eq!(fm.argument_hint.as_deref(), Some("<text to humanize>"));
    assert!(body.contains("[instructions]"));
}

#[test]
fn test_parse_skill_md_no_frontmatter() {
    let content = "Just some plain instructions without frontmatter.\n";
    let (fm, body) = parse_skill_md(content).unwrap();
    assert!(fm.name.is_empty());
    assert!(fm.description.is_empty());
    assert!(fm.argument_hint.is_none());
    assert!(body.contains("plain instructions"));
}

#[test]
fn test_parse_skill_md_frontmatter_no_body() {
    let content = "---\nname: empty-skill\ndescription: No body\n---\n";
    let (fm, body) = parse_skill_md(content).unwrap();
    assert_eq!(fm.name, "empty-skill");
    assert!(body.trim().is_empty());
}

#[test]
fn test_export_skills_wraps_plain_body_in_instructions() {
    let skill_md = "---\nname: my-skill\ndescription: A test skill\n---\nDo this thing.\n";
    let (meta, prompt) = skill_to_layer("my-skill", skill_md, "").unwrap();
    assert!(prompt.contains("[instructions]"), "plain body should be wrapped in [instructions]");
    assert_eq!(prompt, "[instructions]\nDo this thing.\n");
    assert_eq!(meta.sections, vec!["instructions".to_string()]);
}

#[test]
fn test_export_skills_preserves_sections() {
    let skill_md = "---\nname: sectioned-skill\ndescription: Has sections\n---\n[role]\nBe expert.\n\n[constraints]\nNo hallucinations.\n";
    let (meta, prompt) = skill_to_layer("sectioned-skill", skill_md, "").unwrap();
    assert!(meta.sections.contains(&"role".to_string()));
    assert!(meta.sections.contains(&"constraints".to_string()));
    assert_eq!(meta.sections, vec!["role".to_string(), "constraints".to_string()]);
    assert_eq!(prompt, "[role]\nBe expert.\n\n[constraints]\nNo hallucinations.");
}

// ── own tests ────────────────────────────────────────────────────────────────

#[test]
fn skill_layer_takes_directory_name_hint_tag_and_fixed_coordinates() {
    let md = "---\ndescription: d\nargument-hint: \"<x>\"\n---\n[Role]\nR\n[role]\nR2\n";
    let (meta, _) = skill_to_layer("dir-name", md, "Ann").unwrap();
    assert_eq!(meta.name, "dir-name");
    assert_eq!(meta.namespace, "skill");
    assert_eq!(meta.version, "v1.0");
    assert_eq!(meta.description, "d");
    assert_eq!(meta.author, "Ann");
    assert_eq!(meta.tags, vec!["<x>".to_string()]);
    assert_eq!(meta.sections, vec!["role".to_string()]);
    assert!(meta.conflicts.is_empty() && meta.requires.is_empty() && meta.models.is_empty());
}

#[test]
fn unreadable_frontmatter_is_reported() {
    let md = "---\nname: [unclosed\n---\nbody\n";
    assert_eq!(parse_skill_md(md).unwrap_err().message(), "Failed to parse SKILL.md frontmatter");
    assert_eq!(skill_to_layer("s", md, "").unwrap_err().message(), "Cannot parse SKILL.md for 's'");
}

#[test]
fn frontmatter_without_closing_line_is_body() {
    let md = "---\nname: x\nno closing line\n";
    let (fm, body) = parse_skill_md(md).unwrap();
    assert!(fm.name.is_empty());
    assert_eq!(body, md);
}

#[test]
fn frontmatter_is_stripped_for_analysis() {
    assert_eq!(strip_frontmatter("---\nname: x\n---\n\nBody text\n"), "Body text\n");
    assert_eq!(strip_frontmatter("  ------\nk: v\n---  rest"), "rest");
    assert_eq!(strip_frontmatter("no frontmatter"), "no frontmatter");
    assert_eq!(strip_frontmatter("---\nunterminated"), "---\nunterminated");
}

#[test]
fn blank_line_runs_collapse_to_one() {
    assert_eq!(collapse_blank_lines("a\n\n\n\nb\n"), "a\n\nb\n");
    assert_eq!(collapse_blank_lines("a"), "a\n");
    assert_eq!(collapse_blank_lines("  \n\t\nx"), "  \nx\n");
}

#[test]
fn exported_layer_metadata_is_completed_from_the_reference() {
    let mut m = empty_meta();
    fix_layer_meta(&mut m, "team/writer:v2.0");
    assert_eq!(m.namespace, "team");
    assert_eq!(m.version, "v2.0");
    let mut m2 = empty_meta();
    fix_layer_meta(&mut m2, "team/writer");
    assert_eq!(m2.namespace, "team");
    assert_eq!(m2.version, "v1.0");
    let mut m3 = empty_meta();
    m3.namespace = "kept".to_string();
    m3.version = "v9".to_string();
    fix_layer_meta(&mut m3, "team/writer:v2.0");
    assert_eq!(m3.namespace, "kept");
    assert_eq!(m3.version, "v9");
    let mut m4 = empty_meta();
    fix_layer_meta(&mut m4, "plain");
    assert_eq!(m4.namespace, "");
    assert_eq!(m4.version, "v1.0");
}

#[test]
fn common_bodies_are_removed_then_blank_lines_collapsed() {
    let prompt = "[a]\nShared text.\n\n\n[b]\nOwn.\n";
    let bodies = vec!["  Shared text.  ".to_string(), "   ".to_string()];
    assert_eq!(remove_common_bodies(prompt, &bodies), "[a]\n\n[b]\nOwn.\n");
    let twice = vec!["x".to_string()];
    assert_eq!(remove_common_bodies("xaxbx", &twice), "ab\n");
}

#[test]
fn core_layer_names_and_metadata() {
    assert_eq!(core_parts("pua/core"), ("pua".to_string(), "core".to_string()));
    assert_eq!(core_parts("solo"), ("common".to_string(), "solo".to_string()));
    assert_eq!(core_ref("pua", "core"), "pua/core:v1.0");
    let affected = vec!["pua".to_string(), "pua-en".to_string()];
    let m = core_layer_meta("pua", "core", &affected, vec!["rules".to_string()], "me");
    assert_eq!(m.description, "Shared core layer for: pua, pua-en");
    assert_eq!(m.name, "core");
    assert_eq!(m.namespace, "pua");
    assert_eq!(m.version, "v1.0");
    assert_eq!(m.sections, vec!["rules".to_string()]);
    assert_eq!(m.author, "me");
}

#[test]
fn requirements_are_added_once() {
    let mut m = empty_meta();
    add_requirement(&mut m, "pua/core:v1.0");
    add_requirement(&mut m, "pua/core:v1.0");
    assert_eq!(m.requires, vec!["pua/core:v1.0".to_string()]);
}

#[test]
fn export_of_all_skills_runs_the_analysis_by_default() {
    let steps = export_steps(ExportSource::Skills, false, false, false);
    assert_eq!(steps, vec![ExportStep::ExportSkills, ExportStep::AnalyzeSimilarity]);
}

#[test]
fn export_with_refactor_replaces_the_analysis() {
    let steps = export_steps(ExportSource::Skills, false, false, true);
    assert_eq!(steps, vec![ExportStep::ExportSkills, ExportStep::Refactor]);
    let steps = export_steps(ExportSource::Skills, false, true, true);
    assert_eq!(steps, vec![ExportStep::ExportSkills, ExportStep::Refactor]);
}

#[test]
fn export_of_one_skill_or_no_analysis_only_exports() {
    assert_eq!(export_steps(ExportSource::Skills, true, false, true), vec![ExportStep::ExportSkills]);
    assert_eq!(export_steps(ExportSource::Skills, false, true, false), vec![ExportStep::ExportSkills]);
}

#[test]
fn export_of_layers_only_copies_them() {
    assert_eq!(export_steps(ExportSource::Layers, false, false, true), vec![ExportStep::ExportLayers]);
    assert_eq!(export_steps(ExportSource::Layers, true, true, false), vec![ExportStep::ExportLayers]);
}

#[test]
fn collapsing_twice_is_collapsing_once() {
    let s = "a\n\n\n  \nb\n\n\t\nc";
    let once = collapse_blank_lines(s);
    assert_eq!(once, "a\n\nb\n\nc\n");
    assert_eq!(collapse_blank_lines(&once), once);
}

#[test]
fn collapsing_crlf_text_twice_is_collapsing_once() {
    let s = "a\r\n\r\n\r\nb\r\n";
    let once = collapse_blank_lines(s);
    assert_eq!(once, "a\n\nb\n");
    assert_eq!(collapse_blank_lines(&once), once);
}
