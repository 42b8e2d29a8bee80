use prompthub::similarity::{
    extract_core_content, heading_to_section_name, infer_namespace, normalize_whitespace,
    split_into_chunks, Chunk,
};

#[test]
fn test_split_chunks_by_heading() {
    let content = "## Section A\nContent A here.\n\n## Section B\nContent B here.\n";
    let chunks = split_into_chunks(content);
    assert_eq!(chunks.len(), 2);
    assert_eq!(chunks[0].heading, "Section A");
    assert!(chunks[0].body.contains("Content A"));
}

#[test]
fn test_chunk_fingerprint_identical_content() {
    let a = Chunk { heading: "H".into(), body: "  hello world  \n".into() };
    let b = Chunk { heading: "H2".into(), body: "hello world".into() };
    assert_eq!(a.fingerprint(), b.fingerprint());
}

#[test]
fn test_infer_namespace_common_prefix() {
    let names = vec!["pua".to_string(), "pua-en".to_string(), "pua-ja".to_string()];
    assert_eq!(infer_namespace(&names), "pua");
}

#[test]
fn test_infer_namespace_no_common_prefix() {
    let names = vec!["sched-critic".to_string(), "cpu-expert".to_string()];
    assert_eq!(infer_namespace(&names), "common");
}

#[test]
fn test_extract_core_content_formats_sections() {
    let chunk = ("Rules".to_string(), "Rule one.\nRule two.".to_string());
    let content = extract_core_content(&[chunk]);
    assert!(content.contains("[rules]"), "should have section marker");
    assert!(content.contains("Rule one."), "should have body content");
}

#[test]
fn test_heading_to_section_name_ascii() {
    assert_eq!(heading_to_section_name("Three Iron Rules"), "three-iron-rules");
}

#[test]
fn test_heading_to_section_name_non_ascii() {
    let name = heading_to_section_name("三条铁律");
    assert!(name.starts_with("section-"), "non-ASCII should use hash prefix");
    assert_eq!(name.len(), "section-".len() + 6);
}

// ── own tests ────────────────────────────────────────────────────────────────

#[test]
fn chunks_ignore_text_before_the_first_heading_and_join_body_lines() {
    let chunks = split_into_chunks("intro\n##  Deep  \nline 1\nline 2\n## Next\n");
    assert_eq!(chunks.len(), 2);
    assert_eq!(chunks[0].heading, "Deep");
    assert_eq!(chunks[0].body, "line 1\nline 2");
    assert_eq!(chunks[1].heading, "Next");
    assert_eq!(chunks[1].body, "");
    assert!(split_into_chunks("no headings here\n").is_empty());
}

#[test]
fn fingerprint_is_sixteen_hex_digits_of_sha256() {
    let c = Chunk { heading: String::new(), body: "abc".to_string() };
    // SHA-256("abc") = ba7816bf8f01cfea414140de5dae2223...
    assert_eq!(c.fingerprint(), "ba7816bf8f01cfea");
    let d = Chunk { heading: String::new(), body: "  a\n\tb  c ".to_string() };
    let e = Chunk { heading: String::new(), body: "a b c".to_string() };
    assert_eq!(d.fingerprint(), e.fingerprint());
    assert_ne!(c.fingerprint(), e.fingerprint());
}

#[test]
fn whitespace_normalization_joins_words_with_single_spaces() {
    assert_eq!(normalize_whitespace("  a\n\n b\tc  "), "a b c");
    assert_eq!(normalize_whitespace("   "), "");
}

#[test]
fn section_names_drop_punctuation_and_hash_non_ascii() {
    assert_eq!(heading_to_section_name("Output  Format: (v2)!"), "output-format-v2");
    // SHA-256 of the UTF-8 bytes of "é" starts with 0x...; only its first 3 bytes are used.
    let n = heading_to_section_name("é");
    assert_eq!(n.len(), 14);
    assert!(n[8..].chars().all(|c| c.is_ascii_hexdigit() && !c.is_ascii_uppercase()));
}

#[test]
fn namespace_trims_trailing_dashes_and_handles_empty_lists() {
    let names = vec!["team-a".to_string(), "team-b".to_string()];
    assert_eq!(infer_namespace(&names), "team");
    assert_eq!(infer_namespace(&[]), "common");
    let one = vec!["solo".to_string()];
    assert_eq!(infer_namespace(&one), "solo");
}

#[test]
fn core_content_joins_blocks_with_blank_lines() {
    let chunks = vec![
        ("Rules".to_string(), "  Rule one.  ".to_string()),
        ("Output Format".to_string(), "Use JSON.\n".to_string()),
    ];
    assert_eq!(extract_core_content(&chunks), "[rules]\nRule one.\n\n[output-format]\nUse JSON.");
}
