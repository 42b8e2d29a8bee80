use prompthub::common::{approx_matches, covered_pair_keys, exact_common_chunks, pair_key, split_plans, word_overlap};
use prompthub::export::{export_refs, sort_pairs, FoundLayerDir};
use prompthub::resolver::sort_version_names;
use prompthub::similarity::{Chunk, SkillContent};

fn chunk(h: &str, b: &str) -> Chunk {
    Chunk { heading: h.to_string(), body: b.to_string() }
}

#[test]
fn test_find_common_chunks_exact_match() {
    let skill_a = SkillContent {
        name: "pua".into(),
        chunks: vec![chunk("Rules", "Rule one. Rule two."), chunk("Unique", "Only in A.")],
    };
    let skill_b = SkillContent {
        name: "pua-en".into(),
        chunks: vec![chunk("Rules", "Rule one. Rule two."), chunk("Unique", "Only in B.")],
    };
    let found = exact_common_chunks(&[skill_a, skill_b]);
    assert_eq!(found.len(), 1);
    assert!(found[0].skill_names.contains(&"pua".to_string()));
    assert!(found[0].skill_names.contains(&"pua-en".to_string()));
    assert_eq!((found[0].skill, found[0].chunk), (0, 0));
}

#[test]
fn test_generate_split_plan_groups_by_skill_set() {
    let names = vec![
        vec!["pua".to_string(), "pua-en".to_string(), "pua-ja".to_string()],
        vec!["pua".to_string(), "pua-en".to_string(), "pua-ja".to_string()],
    ];
    let plans = split_plans(&names);
    assert_eq!(plans.len(), 1, "same skill set should produce one core layer");
    assert_eq!(plans[0].members.len(), 2);
    assert!(plans[0].suggested_core_name.contains("core"));
    assert_eq!(plans[0].suggested_core_name, "pua/core");
}

#[test]
fn test_jaccard_identical() {
    assert_eq!(word_overlap("hello world foo", "hello world foo"), (3, 3));
}

#[test]
fn test_jaccard_disjoint() {
    assert_eq!(word_overlap("aaa bbb", "ccc ddd"), (0, 4));
}

#[test]
fn test_jaccard_partial() {
    assert_eq!(word_overlap("a b c", "a b d"), (2, 4));
}

// ── own tests ────────────────────────────────────────────────────────────────

#[test]
fn exact_matches_ignore_spacing_and_need_two_skill_names() {
    let a = SkillContent { name: "x".into(), chunks: vec![chunk("H", "same  words"), chunk("H2", "same words")] };
    let b = SkillContent { name: "y".into(), chunks: vec![chunk("K", "other")] };
    let c = SkillContent { name: "z".into(), chunks: vec![chunk("L", " same\nwords ")] };
    let found = exact_common_chunks(&[a.clone(), b.clone(), c]);
    assert_eq!(found.len(), 1);
    assert_eq!(found[0].skill_names, vec!["x".to_string(), "z".to_string()]);
    assert_eq!((found[0].skill, found[0].chunk), (0, 0));
    // the same chunk twice within one skill is no match
    assert!(exact_common_chunks(&[a, b]).is_empty());
}

#[test]
fn word_overlap_counts_distinct_words() {
    assert_eq!(word_overlap("a a b", "b b c"), (1, 3));
    assert_eq!(word_overlap("", ""), (0, 0));
}

#[test]
fn pair_keys_are_order_free() {
    assert_eq!(pair_key("b", "a"), "a::b");
    assert_eq!(pair_key("a", "b"), "a::b");
    let keys = covered_pair_keys(&vec!["c".to_string(), "a".to_string(), "b".to_string()]);
    assert_eq!(keys.len(), 3);
    for k in ["a::c", "b::c", "a::b"] {
        assert!(keys.contains(&k.to_string()));
    }
}

#[test]
fn split_plans_sort_larger_sets_first_and_keep_members() {
    let names = vec![
        vec!["b".to_string(), "a".to_string()],
        vec!["team-x".to_string(), "team-y".to_string(), "team-z".to_string()],
        vec!["a".to_string(), "b".to_string()],
    ];
    let plans = split_plans(&names);
    assert_eq!(plans.len(), 2);
    assert_eq!(plans[0].affected_skills, vec!["team-x".to_string(), "team-y".to_string(), "team-z".to_string()]);
    assert_eq!(plans[0].suggested_core_name, "team/core");
    assert_eq!(plans[0].members, vec![1]);
    assert_eq!(plans[1].affected_skills, vec!["a".to_string(), "b".to_string()]);
    assert_eq!(plans[1].suggested_core_name, "common/core");
    assert_eq!(plans[1].members, vec![0, 2]);
}

#[test]
fn export_refs_filter_and_sort() {
    let found = vec![
        FoundLayerDir { namespace: "style".into(), name: "concise".into(), flat: false, versions: vec!["v2.0".into(), "v1.0".into()] },
        FoundLayerDir { namespace: "base".into(), name: "writer".into(), flat: true, versions: vec![] },
    ];
    let all = export_refs(&found, None);
    assert_eq!(all, vec![
        ("base/writer".to_string(), "base/writer".to_string()),
        ("style/concise:v1.0".to_string(), "style/concise/v1.0".to_string()),
        ("style/concise:v2.0".to_string(), "style/concise/v2.0".to_string()),
    ]);
    assert_eq!(export_refs(&found, Some("writer")).len(), 1);
    assert_eq!(export_refs(&found, Some("style/concise")).len(), 2);
    assert!(export_refs(&found, Some("nothing")).is_empty());
    let sorted = sort_pairs(&vec![("b".to_string(), "1".to_string()), ("a".to_string(), "2".to_string())]);
    assert_eq!(sorted[0].0, "a");
}

#[test]
fn versions_sort_by_semver_when_they_parse() {
    let v = vec!["v1.10".to_string(), "v1.9".to_string(), "v1.2.3".to_string()];
    assert_eq!(sort_version_names(&v), vec!["v1.2.3".to_string(), "v1.9".to_string(), "v1.10".to_string()]);
    let w = vec!["beta".to_string(), "alpha".to_string()];
    assert_eq!(sort_version_names(&w), vec!["alpha".to_string(), "beta".to_string()]);
}

fn all_pairs(skills: &[SkillContent], f: impl Fn(usize, usize, usize, usize) -> bool) -> Vec<Vec<Vec<Vec<bool>>>> {
    (0..skills.len())
        .map(|i| {
            (0..skills.len())
                .map(|j| {
                    (0..skills[i].chunks.len())
                        .map(|a| (0..skills[j].chunks.len()).map(|b| f(i, a, j, b)).collect())
                        .collect()
                })
                .collect()
        })
        .collect()
}

#[test]
fn approx_matches_take_the_first_similar_chunk_per_chunk() {
    let skills = vec![
        SkillContent { name: "a".into(), chunks: vec![chunk("X", "one two"), chunk("Y", "three four")] },
        SkillContent { name: "b".into(), chunks: vec![chunk("X", "one two three"), chunk("Z", "one two four")] },
    ];
    // every pair of chunks with different text counts as similar
    let sim = all_pairs(&skills, |_, _, _, _| true);
    let found = approx_matches(&skills, &sim, &Vec::new());
    let got: Vec<(usize, usize, usize, usize)> = found.iter().map(|m| (m.skill_a, m.chunk_a, m.skill_b, m.chunk_b)).collect();
    assert_eq!(got, vec![(0, 0, 1, 0), (0, 1, 1, 0)]);
}

#[test]
fn approx_matches_skip_identical_chunks_and_covered_pairs() {
    let skills = vec![
        SkillContent { name: "b".into(), chunks: vec![chunk("X", "same   text")] },
        SkillContent { name: "a".into(), chunks: vec![chunk("X", "same text"), chunk("Y", "other text")] },
        SkillContent { name: "c".into(), chunks: vec![chunk("Y", "other text")] },
    ];
    let sim = all_pairs(&skills, |_, _, _, _| true);
    // identical fingerprints are never an approximate match
    let found = approx_matches(&skills, &sim, &Vec::new());
    let got: Vec<(usize, usize, usize, usize)> = found.iter().map(|m| (m.skill_a, m.chunk_a, m.skill_b, m.chunk_b)).collect();
    assert_eq!(got, vec![(0, 0, 1, 1), (0, 0, 2, 0), (1, 0, 2, 0)]);
    // a covered pair is skipped, whichever order its names come in
    let covered = vec![pair_key("a", "b")];
    let found = approx_matches(&skills, &sim, &covered);
    let got: Vec<(usize, usize, usize, usize)> = found.iter().map(|m| (m.skill_a, m.chunk_a, m.skill_b, m.chunk_b)).collect();
    assert_eq!(got, vec![(0, 0, 2, 0), (1, 0, 2, 0)]);
}

#[test]
fn approx_matches_follow_the_similarity_decisions() {
    let skills = vec![
        SkillContent { name: "a".into(), chunks: vec![chunk("X", "one"), chunk("Y", "two")] },
        SkillContent { name: "b".into(), chunks: vec![chunk("X", "uno"), chunk("Y", "dos")] },
    ];
    let sim = all_pairs(&skills, |_, a, _, b| a == 1 && b == 1);
    let found = approx_matches(&skills, &sim, &Vec::new());
    let got: Vec<(usize, usize, usize, usize)> = found.iter().map(|m| (m.skill_a, m.chunk_a, m.skill_b, m.chunk_b)).collect();
    assert_eq!(got, vec![(0, 1, 1, 1)]);
    let none = all_pairs(&skills, |_, _, _, _| false);
    assert!(approx_matches(&skills, &none, &Vec::new()).is_empty());
}
