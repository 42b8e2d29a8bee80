//! Exporting skills and layers: SKILL.md parsing, the layer a skill becomes, metadata
//! repairs of exported layers, and the text edits of a refactoring into a core layer.
use vstd::prelude::*;
use crate::text::{
    chars_of, string_of, owned, concat2, concat3, push_all, sub_vec, vviews, lines, lines_vec,
    trim, trim_start, trim_end, trim_vec, trim_end_vec, has_prefix, starts_with_vec, occurs_at,
    find_first, lemma_find_first_props, lower, to_lowercase, split_once, split_once_vec,
    lemma_find_first_at, lemma_find_first_none, str_eq, seq_lt, str_lt, clean_line,
    lemma_lines_append, lemma_lines_one, lemma_lines_no_newline, joined_lines, lemma_lines_of_joined,
    ends_in_cr,
};
use crate::merger::{join, join_strings};
use crate::strmap::{StrMap, has_key, Entries};
use crate::layer::{LayerMeta, parse_sections, spec_parse_sections, strs_view, contains_string};
use crate::error::PromptHubError;

verus! {

// ───────────────────────── blank lines ─────────────────────────

/// Whether a line holds only whitespace.
pub open spec fn is_blank(line: Seq<char>) -> bool {
    trim(line).len() == 0
}

/// The text written so far and whether the last kept line was blank.
pub open spec fn collapse_state(ls: Seq<Seq<char>>) -> (Seq<char>, bool)
    decreases ls.len(),
{
    if ls.len() == 0 {
        (seq![], false)
    } else {
        let (out, prev_blank) = collapse_state(ls.drop_last());
        let line = ls.last();
        if is_blank(line) && prev_blank {
            (out, prev_blank)
        } else {
            (out + line + seq!['\n'], is_blank(line))
        }
    }
}

/// Each line of the text followed by `\n`, where a blank line right after a kept blank line
/// is dropped: runs of blank lines become one.
pub open spec fn spec_collapse_blank_lines(s: Seq<char>) -> Seq<char> {
    collapse_state(lines(s)).0
}

/// Collapses runs of blank lines into one.
pub fn collapse_blank_lines(s: &str) -> (r: String)
    ensures
        r@ == spec_collapse_blank_lines(s@),
{
    let v = chars_of(s);
    let ls = lines_vec(&v);
    let ghost lv = vviews(ls@);
    let mut out: Vec<char> = Vec::new();
    let mut prev_blank = false;
    let mut i: usize = 0;
    assert(lv.take(0) =~= Seq::<Seq<char>>::empty());
    while i < ls.len()
        invariant
            i <= ls.len(),
            lv == vviews(ls@),
            (out@, prev_blank) == collapse_state(lv.take(i as int)),
        decreases ls.len() - i,
    {
        proof {
            assert(lv.take(i + 1).drop_last() =~= lv.take(i as int));
            assert(lv.take(i + 1).last() == ls@[i as int]@);
        }
        let line = &ls[i];
        let blank = trim_vec(line).len() == 0;
        if !(blank && prev_blank) {
            push_all(&mut out, line);
            out.push('\n');
            prev_blank = blank;
        }
        i = i + 1;
    }
    assert(lv.take(ls.len() as int) =~= lv);
    string_of(&out)
}

/// The lines that collapsing keeps: a blank line right after a kept blank line is dropped.
pub open spec fn kept_lines(ls: Seq<Seq<char>>) -> Seq<Seq<char>>
    decreases ls.len(),
{
    if ls.len() == 0 {
        seq![]
    } else {
        let k = kept_lines(ls.drop_last());
        if is_blank(ls.last()) && k.len() > 0 && is_blank(k.last()) {
            k
        } else {
            k.push(ls.last())
        }
    }
}

proof fn lemma_collapse_shape(ls: Seq<Seq<char>>)
    ensures
        collapse_state(ls) == (joined_lines(kept_lines(ls)), kept_lines(ls).len() > 0 && is_blank(kept_lines(ls).last())),
    decreases ls.len(),
{
    if ls.len() > 0 {
        lemma_collapse_shape(ls.drop_last());
        let k = kept_lines(ls.drop_last());
        if !(is_blank(ls.last()) && k.len() > 0 && is_blank(k.last())) {
            assert(k.push(ls.last()).drop_last() =~= k);
        }
    }
}

proof fn lemma_kept_lines_idempotent(ls: Seq<Seq<char>>)
    ensures
        kept_lines(kept_lines(ls)) == kept_lines(ls),
    decreases ls.len(),
{
    if ls.len() > 0 {
        lemma_kept_lines_idempotent(ls.drop_last());
        let k = kept_lines(ls.drop_last());
        if !(is_blank(ls.last()) && k.len() > 0 && is_blank(k.last())) {
            assert(k.push(ls.last()).drop_last() =~= k);
        }
    }
}

proof fn lemma_kept_lines_clean(ls: Seq<Seq<char>>)
    requires
        forall|j: int| 0 <= j < ls.len() ==> clean_line(#[trigger] ls[j]),
    ensures
        forall|j: int| 0 <= j < kept_lines(ls).len() ==> clean_line(#[trigger] kept_lines(ls)[j]),
    decreases ls.len(),
{
    if ls.len() > 0 {
        assert forall|j: int| 0 <= j < ls.drop_last().len() implies clean_line(#[trigger] ls.drop_last()[j]) by {
            assert(ls.drop_last()[j] == ls[j]);
        }
        lemma_kept_lines_clean(ls.drop_last());
        assert(clean_line(ls[ls.len() - 1]));
        let k = kept_lines(ls.drop_last());
        assert forall|j: int| 0 <= j < kept_lines(ls).len() implies clean_line(#[trigger] kept_lines(ls)[j]) by {
            if j < k.len() {
                assert(kept_lines(ls)[j] == k[j]);
            } else {
                assert(kept_lines(ls)[j] == ls.last());
            }
        }
    }
}

/// Collapsing blank lines twice gives the same text as collapsing once, unless a line of
/// the text ends in a `\r` that stays after the line break is read (`"a\r\r\n"`, or a
/// last line `"a\r"`): collapsing writes such a line with `\n`, and reading it again drops
/// that `\r`. Texts with `\r\n` line breaks are covered.
pub proof fn law_collapse_blank_lines_idempotent(s: Seq<char>)
    requires
        forall|j: int| 0 <= j < lines(s).len() ==> !ends_in_cr(#[trigger] lines(s)[j]),
    ensures
        spec_collapse_blank_lines(spec_collapse_blank_lines(s)) == spec_collapse_blank_lines(s),
{
    let k = kept_lines(lines(s));
    lemma_collapse_shape(lines(s));
    lemma_lines_no_newline(s);
    assert forall|j: int| 0 <= j < lines(s).len() implies clean_line(#[trigger] lines(s)[j]) by {
        assert(!ends_in_cr(lines(s)[j]));
    }
    lemma_kept_lines_clean(lines(s));
    lemma_lines_of_joined(k);
    lemma_collapse_shape(k);
    lemma_kept_lines_idempotent(lines(s));
}

// ───────────────────────── searching for text ─────────────────────────

/// Index of the first occurrence of `p` in `s` at or after `i`, or -1 (`str::find`).
pub open spec fn find_from(s: Seq<char>, p: Seq<char>, i: int) -> int
    decreases s.len() + 1 - i,
{
    if i < 0 || i > s.len() || i + p.len() > s.len() {
        -1
    } else if occurs_at(s, p, i) {
        i
    } else {
        find_from(s, p, i + 1)
    }
}

fn occurs_at_vec(v: &Vec<char>, p: &Vec<char>, i: usize) -> (r: bool)
    requires
        i + p.len() <= v.len(),
    ensures
        r == occurs_at(v@, p@, i as int),
{
    let mut k: usize = 0;
    while k < p.len()
        invariant
            i + p.len() <= v.len(),
            k <= p.len(),
            forall|j: int| 0 <= j < k ==> v@[i + j] == p@[j],
        decreases p.len() - k,
    {
        if v[i + k] != p[k] {
            assert(v@.subrange(i as int, i + p.len())[k as int] != p@[k as int]);
            return false;
        }
        k = k + 1;
    }
    assert(v@.subrange(i as int, i + p.len()) =~= p@);
    true
}

/// The first occurrence of `p` in `v` at or after `from`.
fn find_vec(v: &Vec<char>, p: &Vec<char>, from: usize) -> (r: Option<usize>)
    requires
        from <= v.len(),
    ensures
        match r {
            Some(i) => i == find_from(v@, p@, from as int) && i + p@.len() <= v@.len(),
            None => find_from(v@, p@, from as int) == -1,
        },
{
    if p.len() > v.len() {
        return None;
    }
    let last = v.len() - p.len();
    if from > last {
        return None;
    }
    let mut i: usize = from;
    loop
        invariant
            from <= i <= last,
            p.len() <= v.len(),
            last == v.len() - p.len(),
            find_from(v@, p@, from as int) == find_from(v@, p@, i as int),
        decreases last - i,
    {
        if occurs_at_vec(v, p, i) {
            return Some(i);
        }
        if i == last {
            proof {
                assert(find_from(v@, p@, i + 1) == -1);
            }
            return None;
        }
        i = i + 1;
    }
}

// ───────────────────────── frontmatter ─────────────────────────

/// Leading `---` runs removed (`trim_start_matches("---")`).
pub open spec fn strip_triple_dashes(s: Seq<char>) -> Seq<char>
    decreases s.len(),
{
    if s.len() >= 3 && has_prefix(s, "---"@) {
        strip_triple_dashes(s.skip(3))
    } else {
        s
    }
}

/// A skill's text without its `---` frontmatter: when the text, without leading whitespace,
/// starts with `---`, the dashes are dropped and everything up to and including the next
/// `\n---` too, and leading whitespace of the rest; otherwise the text as it is.
pub open spec fn spec_strip_frontmatter(content: Seq<char>) -> Seq<char> {
    let t = trim_start(content);
    if has_prefix(t, "---"@) {
        let a = strip_triple_dashes(t);
        let e = find_from(a, "\n---"@, 0);
        if e >= 0 {
            trim_start(a.skip(e + 4))
        } else {
            content
        }
    } else {
        content
    }
}

fn trim_start_from(v: &Vec<char>, from: usize) -> (r: Vec<char>)
    requires
        from <= v.len(),
    ensures
        r@ == trim_start(v@.skip(from as int)),
{
    let mut i: usize = from;
    assert(v@.skip(from as int) =~= v@.skip(from as int));
    while i < v.len() && crate::text::is_whitespace(v[i])
        invariant
            from <= i <= v.len(),
            trim_start(v@.skip(from as int)) == trim_start(v@.skip(i as int)),
        decreases v.len() - i,
    {
        proof {
            assert(v@.skip(i as int).drop_first() =~= v@.skip(i + 1));
        }
        i = i + 1;
    }
    let r = sub_vec(v, i, v.len());
    assert(r@ =~= v@.skip(i as int));
    r
}

/// Removes the YAML frontmatter of a SKILL.md text.
pub fn strip_frontmatter(content: &str) -> (r: String)
    ensures
        r@ == spec_strip_frontmatter(content@),
{
    let v = chars_of(content);
    let t = trim_start_from(&v, 0);
    assert(v@.skip(0) =~= v@);
    let dashes = chars_of("---");
    proof {
        reveal_strlit("---");
        reveal_strlit("\n---");
    }
    if starts_with_vec(&t, &dashes) {
        let mut i: usize = 0;
        assert(t@.skip(0) =~= t@);
        while t.len() - i >= 3 && t[i] == '-' && t[i + 1] == '-' && t[i + 2] == '-'
            invariant
                i <= t.len(),
                strip_triple_dashes(t@) == strip_triple_dashes(t@.skip(i as int)),
            decreases t.len() - i,
        {
            proof {
                reveal_strlit("---");
                let s = t@.skip(i as int);
                assert(s.take(3) =~= "---"@);
                assert(s.skip(3) =~= t@.skip(i + 3));
            }
            i = i + 3;
        }
        proof {
            reveal_strlit("---");
            let s = t@.skip(i as int);
            if s.len() >= 3 && has_prefix(s, "---"@) {
                assert(s.take(3) == "---"@);
                assert(s[0] == s.take(3)[0] && s[1] == s.take(3)[1] && s[2] == s.take(3)[2]);
                assert(s[0] == '-' && s[1] == '-' && s[2] == '-');
            }
        }
        let a = sub_vec(&t, i, t.len());
        assert(a@ =~= t@.skip(i as int));
        let marker = chars_of("\n---");
        match find_vec(&a, &marker, 0) {
            Some(e) => {
                let rest = trim_start_from(&a, e + 4);
                return string_of(&rest);
            },
            None => {},
        }
    }
    owned(content)
}

// ───────────────────────── text replacement ─────────────────────────

/// `str::replace` for a non-empty pattern: the non-overlapping occurrences of `p`, found
/// from the left, replaced by `q`.
pub open spec fn replace_all(s: Seq<char>, p: Seq<char>, q: Seq<char>) -> Seq<char>
    decreases s.len(),
{
    if p.len() == 0 || s.len() == 0 {
        s
    } else if s.len() >= p.len() && has_prefix(s, p) {
        q + replace_all(s.skip(p.len() as int), p, q)
    } else {
        seq![s[0]] + replace_all(s.drop_first(), p, q)
    }
}

fn replace_vec(v: &Vec<char>, p: &Vec<char>, q: &Vec<char>) -> (r: Vec<char>)
    requires
        p.len() > 0,
    ensures
        r@ == replace_all(v@, p@, q@),
{
    let mut out: Vec<char> = Vec::new();
    let mut i: usize = 0;
    assert(v@.skip(0) =~= v@);
    while i < v.len()
        invariant
            i <= v.len(),
            p.len() > 0,
            replace_all(v@, p@, q@) == out@ + replace_all(v@.skip(i as int), p@, q@),
        decreases v.len() - i,
    {
        let ghost s = v@.skip(i as int);
        if p.len() <= v.len() - i && occurs_at_vec(v, p, i) {
            proof {
                assert(s.take(p.len() as int) =~= p@);
                assert(s.skip(p.len() as int) =~= v@.skip(i + p.len()));
            }
            push_all(&mut out, q);
            i = i + p.len();
        } else {
            proof {
                if s.len() >= p.len() && has_prefix(s, p@) {
                    assert(v@.subrange(i as int, i + p.len()) =~= s.take(p.len() as int));
                }
                assert(s.drop_first() =~= v@.skip(i + 1));
            }
            out.push(v[i]);
            i = i + 1;
        }
    }
    proof {
        assert(v@.skip(i as int) =~= Seq::<char>::empty());
        assert(out@ + Seq::<char>::empty() =~= out@);
    }
    out
}

/// The text with each trimmed, non-empty body removed, one after the other.
pub open spec fn remove_bodies(s: Seq<char>, bodies: Seq<Seq<char>>) -> Seq<char>
    decreases bodies.len(),
{
    if bodies.len() == 0 {
        s
    } else {
        let prev = remove_bodies(s, bodies.drop_last());
        let t = trim(bodies.last());
        if t.len() > 0 {
            replace_all(prev, t, seq![])
        } else {
            prev
        }
    }
}

/// A skill prompt after the common chunks moved to a core layer: each chunk's trimmed body
/// removed from the text, then runs of blank lines collapsed.
pub fn remove_common_bodies(prompt: &str, bodies: &Vec<String>) -> (r: String)
    ensures
        r@ == spec_collapse_blank_lines(remove_bodies(prompt@, bodies.deep_view())),
{
    let mut cur = chars_of(prompt);
    let ghost bv = bodies.deep_view();
    let empty: Vec<char> = Vec::new();
    let mut i: usize = 0;
    assert(bv.take(0) =~= Seq::<Seq<char>>::empty());
    while i < bodies.len()
        invariant
            i <= bodies.len(),
            bv == bodies.deep_view(),
            empty@.len() == 0,
            cur@ == remove_bodies(prompt@, bv.take(i as int)),
        decreases bodies.len() - i,
    {
        proof {
            assert(bv.take(i + 1).drop_last() =~= bv.take(i as int));
            assert(bv.take(i + 1).last() == bodies@[i as int]@);
        }
        let t = trim_vec(&chars_of(bodies[i].as_str()));
        if t.len() > 0 {
            cur = replace_vec(&cur, &t, &empty);
            assert(empty@ =~= Seq::<char>::empty());
        }
        i = i + 1;
    }
    assert(bv.take(bodies.len() as int) =~= bv);
    let s = string_of(&cur);
    collapse_blank_lines(s.as_str())
}

// ───────────────────────── SKILL.md ─────────────────────────

/// The metadata of a SKILL.md file.
#[derive(Debug, Clone)]
pub struct SkillFrontmatter {
    pub name: String,
    pub description: String,
    pub argument_hint: Option<String>,
}

/// What reading the YAML text gives for a key: `None` when the text is not YAML,
/// `Some(None)` when the key is missing or its value is not a string, `Some(Some(s))` for
/// the string `s`.
pub uninterp spec fn yaml_str_field(yaml: Seq<char>, key: Seq<char>) -> Option<Option<Seq<char>>>;

/// `serde_yaml::from_str::<serde_yaml::Value>`, then `Value::get(key)` and `Value::as_str`:
/// the string under `key`, if the text parses. The result is a function of the text and the
/// key alone; which texts parse and what they hold is left to serde_yaml.
#[verifier::external_body]
fn yaml_string_field(yaml: &str, key: &str) -> (r: Result<Option<String>, String>)
    ensures
        match r {
            Ok(Some(s)) => yaml_str_field(yaml@, key@) == Some(Some(s@)),
            Ok(None) => yaml_str_field(yaml@, key@) == Some(None::<Seq<char>>),
            Err(_) => yaml_str_field(yaml@, key@) is None,
        },
{
    match serde_yaml::from_str::<serde_yaml::Value>(yaml) {
        Ok(v) => match v.get(key) {
            Some(x) => Ok(x.as_str().map(String::from)),
            None => Ok(None),
        },
        Err(e) => Err(e.to_string()),
    }
}

/// Index of the first line at or after `j` that reads `---` once trimmed, or -1.
pub open spec fn delim_from(ls: Seq<Seq<char>>, j: int) -> int
    decreases ls.len() - j,
{
    if j < 0 || j >= ls.len() {
        -1
    } else if trim(ls[j]) == "---"@ {
        j
    } else {
        delim_from(ls, j + 1)
    }
}

/// The frontmatter's YAML and the body, when the first line reads `---` and a later line
/// does too (both once trimmed): the lines between them, and the lines after the second,
/// each joined by `\n`.
pub open spec fn frontmatter_split(content: Seq<char>) -> Option<(Seq<char>, Seq<char>)> {
    let ls = lines(content);
    if ls.len() > 0 && trim(ls[0]) == "---"@ {
        let c = delim_from(ls, 1);
        if c >= 1 {
            Some((join(ls.subrange(1, c), "\n"@), join(ls.skip(c + 1), "\n"@)))
        } else {
            None
        }
    } else {
        None
    }
}

/// A string field of YAML, or empty.
pub open spec fn or_empty(o: Option<Seq<char>>) -> Seq<char> {
    match o {
        Some(s) => s,
        None => seq![],
    }
}

/// The name, description, argument hint and body of a SKILL.md text, or `None` when its
/// frontmatter is not YAML. Without frontmatter the fields are empty and the body is the
/// whole text.
pub open spec fn skill_fields(content: Seq<char>) -> Option<(Seq<char>, Seq<char>, Option<Seq<char>>, Seq<char>)> {
    match frontmatter_split(content) {
        None => Some((seq![], seq![], None, content)),
        Some((y, b)) => match (
            yaml_str_field(y, "name"@),
            yaml_str_field(y, "description"@),
            yaml_str_field(y, "argument-hint"@),
        ) {
            (Some(n), Some(d), Some(h)) => Some((or_empty(n), or_empty(d), h, b)),
            _ => None,
        },
    }
}

/// An optional string as a plain value.
pub open spec fn opt_view(o: Option<String>) -> Option<Seq<char>> {
    match o {
        Some(s) => Some(s@),
        None => None,
    }
}

fn strings_of(ls: &Vec<Vec<char>>, from: usize, to: usize) -> (r: Vec<String>)
    requires
        from <= to <= ls@.len(),
    ensures
        r.deep_view() == vviews(ls@).subrange(from as int, to as int),
{
    let mut r: Vec<String> = Vec::new();
    let mut i: usize = from;
    while i < to
        invariant
            from <= i <= to <= ls@.len(),
            r.deep_view() == vviews(ls@).subrange(from as int, i as int),
        decreases to - i,
    {
        let ghost before = r.deep_view();
        r.push(string_of(&ls[i]));
        assert(r.deep_view() =~= before.push(ls@[i as int]@));
        i = i + 1;
        assert(vviews(ls@).subrange(from as int, i as int) =~= before.push(ls@[(i - 1) as int]@));
    }
    r
}

fn frontmatter_field(yaml: &str, key: &str) -> (r: Result<Option<String>, PromptHubError>)
    ensures
        match yaml_str_field(yaml@, key@) {
            Some(v) => r matches Ok(x) && opt_view(x) == v,
            None => r matches Err(PromptHubError::Other(m)) && m@ == "Failed to parse SKILL.md frontmatter"@,
        },
{
    match yaml_string_field(yaml, key) {
        Ok(v) => Ok(v),
        Err(_) => Err(PromptHubError::Other(owned("Failed to parse SKILL.md frontmatter"))),
    }
}

fn string_or_empty(o: Option<String>) -> (r: String)
    ensures
        r@ == or_empty(opt_view(o)),
{
    match o {
        Some(s) => s,
        None => String::new(),
    }
}

/// Parses a SKILL.md text into its frontmatter (YAML between the first two `---` lines)
/// and its body.
pub fn parse_skill_md(content: &str) -> (r: Result<(SkillFrontmatter, String), PromptHubError>)
    ensures
        match skill_fields(content@) {
            Some((n, d, h, b)) => r matches Ok((fm, body)) && fm.name@ == n && fm.description@ == d
                && opt_view(fm.argument_hint) == h && body@ == b,
            None => r matches Err(PromptHubError::Other(m)) && m@ == "Failed to parse SKILL.md frontmatter"@,
        },
{
    let v = chars_of(content);
    let ls = lines_vec(&v);
    let ghost lv = vviews(ls@);
    let dashes = chars_of("---");
    proof {
        reveal_strlit("---");
    }
    if ls.len() > 0 && crate::text::vec_eq(&trim_vec(&ls[0]), &dashes) {
        assert(lv[0] == ls@[0]@);
        let mut c: usize = 1;
        while c < ls.len() && !crate::text::vec_eq(&trim_vec(&ls[c]), &dashes)
            invariant
                1 <= c <= ls@.len(),
                lv == vviews(ls@),
                dashes@ == "---"@,
                delim_from(lv, 1) == delim_from(lv, c as int),
            decreases ls@.len() - c,
        {
            assert(lv[c as int] == ls@[c as int]@);
            c = c + 1;
        }
        if c < ls.len() {
            assert(lv[c as int] == ls@[c as int]@);
            assert(delim_from(lv, c as int) == c);
            let fm_lines = strings_of(&ls, 1, c);
            let fm_yaml = join_strings(&fm_lines, "\n");
            let body_lines = strings_of(&ls, c + 1, ls.len());
            assert(lv.subrange((c + 1) as int, ls@.len() as int) =~= lv.skip(c + 1));
            let body = join_strings(&body_lines, "\n");
            proof {
                reveal_strlit("name");
                reveal_strlit("description");
                reveal_strlit("argument-hint");
            }
            let name = frontmatter_field(fm_yaml.as_str(), "name")?;
            let description = frontmatter_field(fm_yaml.as_str(), "description")?;
            let argument_hint = frontmatter_field(fm_yaml.as_str(), "argument-hint")?;
            return Ok((
                SkillFrontmatter {
                    name: string_or_empty(name),
                    description: string_or_empty(description),
                    argument_hint,
                },
                body,
            ));
        } else {
            assert(delim_from(lv, c as int) == -1);
        }
    }
    Ok((SkillFrontmatter { name: String::new(), description: String::new(), argument_hint: None }, owned(content)))
}

// ───────────────────────── skills as layers ─────────────────────────

/// The text between the brackets of a trimmed `[name]` line with a non-empty name.
pub open spec fn bracket_inner(line: Seq<char>) -> Option<Seq<char>> {
    let t = trim(line);
    if t.len() > 2 && t[0] == '[' && t.last() == ']' {
        Some(t.subrange(1, t.len() - 1))
    } else {
        None
    }
}

/// The sections of a body in the order their `[name]` lines first appear: the lower-cased
/// names of bracket lines that the parsed sections hold, each once.
pub open spec fn detected_sections(ls: Seq<Seq<char>>, e: Entries) -> Seq<Seq<char>>
    decreases ls.len(),
{
    if ls.len() == 0 {
        seq![]
    } else {
        let prev = detected_sections(ls.drop_last(), e);
        match bracket_inner(ls.last()) {
            Some(inner) => if has_key(e, lower(inner)) && !prev.contains(lower(inner)) {
                prev.push(lower(inner))
            } else {
                prev
            },
            None => prev,
        }
    }
}

/// The sections of a skill body, in declaration order.
pub open spec fn body_sections(body: Seq<char>) -> Seq<Seq<char>> {
    detected_sections(lines(body), spec_parse_sections(body).0)
}

/// The metadata of the layer exported from a skill.
pub open spec fn skill_layer_ok(
    meta: LayerMeta,
    prompt: Seq<char>,
    skill_name: Seq<char>,
    author: Seq<char>,
    f: (Seq<char>, Seq<char>, Option<Seq<char>>, Seq<char>),
) -> bool {
    let (n, d, h, b) = f;
    let secs = body_sections(b);
    &&& meta.name@ == (if n.len() == 0 { skill_name } else { n })
    &&& meta.namespace@ == "skill"@
    &&& meta.version@ == "v1.0"@
    &&& meta.description@ == d
    &&& meta.author@ == author
    &&& strs_view(meta.tags@) == (match h {
        Some(x) => if x.len() > 0 { seq![x] } else { seq![] },
        None => seq![],
    })
    &&& strs_view(meta.sections@) == (if secs.len() == 0 { seq!["instructions"@] } else { secs })
    &&& meta.conflicts@.len() == 0
    &&& meta.requires@.len() == 0
    &&& meta.models@.len() == 0
    &&& prompt == (if secs.len() == 0 { "[instructions]\n"@ + trim_end(b) + "\n"@ } else { b })
}

fn detect_sections(body: &str, sections: &StrMap) -> (r: Vec<String>)
    ensures
        strs_view(r@) == detected_sections(lines(body@), sections@),
{
    let v = chars_of(body);
    let ls = lines_vec(&v);
    let ghost lv = vviews(ls@);
    let mut ordered: Vec<String> = Vec::new();
    let mut i: usize = 0;
    assert(lv.take(0) =~= Seq::<Seq<char>>::empty());
    assert(strs_view(ordered@) =~= Seq::<Seq<char>>::empty());
    while i < ls.len()
        invariant
            i <= ls.len(),
            lv == vviews(ls@),
            strs_view(ordered@) == detected_sections(lv.take(i as int), sections@),
        decreases ls.len() - i,
    {
        proof {
            assert(lv.take(i + 1).drop_last() =~= lv.take(i as int));
            assert(lv.take(i + 1).last() == ls@[i as int]@);
        }
        let t = trim_vec(&ls[i]);
        let n = t.len();
        if n > 2 && t[0] == '[' && t[n - 1] == ']' {
            let inner = sub_vec(&t, 1, n - 1);
            let low = to_lowercase(string_of(&inner).as_str());
            if sections.contains_key(low.as_str()) && !contains_string(ordered.as_slice(), low.as_str()) {
                let ghost before = strs_view(ordered@);
                ordered.push(low);
                assert(strs_view(ordered@) =~= before.push(lower(inner@)));
            }
        }
        i = i + 1;
    }
    assert(lv.take(ls.len() as int) =~= lv);
    ordered
}

/// The layer a skill is exported as, from the skill's directory name, its SKILL.md text
/// and the author: the name from the frontmatter (or the directory's), namespace `skill`,
/// version `v1.0`, the argument hint as the one tag, and the sections found in the body. A
/// body without sections is wrapped in an `[instructions]` section. Returns the metadata
/// and the prompt text.
pub fn skill_to_layer(skill_name: &str, content: &str, author: &str) -> (r: Result<(LayerMeta, String), PromptHubError>)
    ensures
        match skill_fields(content@) {
            Some(f) => r matches Ok((meta, prompt)) && skill_layer_ok(meta, prompt@, skill_name@, author@, f),
            None => r matches Err(PromptHubError::Other(m)) && m@ == "Cannot parse SKILL.md for '"@ + skill_name@
                + "'"@,
        },
{
    let (fm, body) = match parse_skill_md(content) {
        Ok(x) => x,
        Err(_) => {
            return Err(PromptHubError::Other(concat3("Cannot parse SKILL.md for '", skill_name, "'")));
        },
    };
    let layer_name = if fm.name.as_str().is_empty() {
        owned(skill_name)
    } else {
        fm.name
    };
    let mut tags: Vec<String> = Vec::new();
    match fm.argument_hint {
        Some(hint) => {
            if !hint.as_str().is_empty() {
                tags.push(hint);
            }
        },
        None => {},
    }
    let (parsed, _) = parse_sections(body.as_str());
    let sections = detect_sections(body.as_str(), &parsed);
    proof {
        reveal_strlit("skill");
        reveal_strlit("v1.0");
        reveal_strlit("instructions");
        reveal_strlit("[instructions]\n");
        reveal_strlit("\n");
    }
    let prompt = if sections.len() == 0 {
        let t = trim_end_vec(&chars_of(body.as_str()));
        let ts = string_of(&t);
        concat3("[instructions]\n", ts.as_str(), "\n")
    } else {
        body
    };
    let yaml_sections = if sections.len() == 0 {
        let mut v: Vec<String> = Vec::new();
        v.push(owned("instructions"));
        assert(strs_view(v@) =~= seq!["instructions"@]);
        v
    } else {
        sections
    };
    assert(strs_view(tags@) =~= (match opt_view(fm.argument_hint) {
        Some(x) => if x.len() > 0 { seq![x] } else { seq![] },
        None => Seq::<Seq<char>>::empty(),
    }));
    let meta = LayerMeta {
        name: layer_name,
        namespace: owned("skill"),
        version: owned("v1.0"),
        description: fm.description,
        author: owned(author),
        tags,
        sections: yaml_sections,
        conflicts: Vec::new(),
        requires: Vec::new(),
        models: Vec::new(),
    };
    Ok((meta, prompt))
}

// ───────────────────────── exported layers ─────────────────────────

/// Index of the last occurrence of `c` in `s`, or -1.
pub open spec fn find_last(s: Seq<char>, c: char) -> int
    decreases s.len(),
{
    if s.len() == 0 {
        -1
    } else if s.last() == c {
        s.len() - 1
    } else {
        find_last(s.drop_last(), c)
    }
}

/// The namespace of an exported layer: kept when set, else the part of the reference
/// before its first `/` (the reference taken up to its first `:`), when there is one.
pub open spec fn fixed_namespace(ns: Seq<char>, layer_ref: Seq<char>) -> Seq<char> {
    if ns.len() == 0 {
        let head = match split_once(layer_ref, ':') {
            Some((a, _)) => a,
            None => layer_ref,
        };
        let k = find_first(head, '/');
        if k >= 0 {
            head.take(k)
        } else {
            ns
        }
    } else {
        ns
    }
}

/// The version of an exported layer: kept when set, else what follows the reference's
/// last `:`, or `v1.0`.
pub open spec fn fixed_version(version: Seq<char>, layer_ref: Seq<char>) -> Seq<char> {
    if version.len() == 0 {
        let c = find_last(layer_ref, ':');
        if c >= 0 {
            layer_ref.skip(c + 1)
        } else {
            "v1.0"@
        }
    } else {
        version
    }
}

fn find_last_vec(v: &Vec<char>, c: char) -> (r: Option<usize>)
    ensures
        match r {
            Some(i) => i < v@.len() && find_last(v@, c) == i,
            None => find_last(v@, c) == -1,
        },
{
    let mut k: usize = v.len();
    assert(v@.take(k as int) =~= v@);
    while k > 0
        invariant
            k <= v@.len(),
            find_last(v@, c) == find_last(v@.take(k as int), c),
        decreases k,
    {
        proof {
            assert(v@.take(k as int).drop_last() =~= v@.take(k - 1));
            assert(v@.take(k as int).last() == v@[k - 1]);
        }
        if v[k - 1] == c {
            return Some(k - 1);
        }
        k = k - 1;
    }
    None
}

/// Fills in the namespace and version of an exported layer's metadata from its reference
/// (`ns/name` or `ns/name:version`) where the metadata leaves them empty.
pub fn fix_layer_meta(meta: &mut LayerMeta, layer_ref: &str)
    ensures
        final(meta).namespace@ == fixed_namespace(old(meta).namespace@, layer_ref@),
        final(meta).version@ == fixed_version(old(meta).version@, layer_ref@),
        final(meta).name == old(meta).name,
        final(meta).description == old(meta).description,
        final(meta).author == old(meta).author,
        final(meta).tags == old(meta).tags,
        final(meta).sections == old(meta).sections,
        final(meta).conflicts == old(meta).conflicts,
        final(meta).requires == old(meta).requires,
        final(meta).models == old(meta).models,
{
    let rv = chars_of(layer_ref);
    if meta.namespace.as_str().is_empty() {
        let head = match split_once_vec(&rv, ':') {
            Some((a, _)) => a,
            None => rv.clone(),
        };
        match crate::text::find_char_from(&head, '/', 0) {
            Some(k) => {
                assert(head@.skip(0) =~= head@);
                let ns = sub_vec(&head, 0, k);
                assert(ns@ =~= head@.take(k as int));
                meta.namespace = string_of(&ns);
            },
            None => {
                assert(head@.skip(0) =~= head@);
            },
        }
    }
    if meta.version.as_str().is_empty() {
        proof {
            reveal_strlit("v1.0");
        }
        match find_last_vec(&rv, ':') {
            Some(c) => {
                let n = rv.len();
                assert(c < n);
                let ver = sub_vec(&rv, c + 1, n);
                assert(ver@ =~= rv@.skip(c + 1));
                meta.version = string_of(&ver);
            },
            None => {
                meta.version = owned("v1.0");
            },
        }
    }
}

// ───────────────────────── refactoring into a core layer ─────────────────────────

/// The namespace and name of a suggested core layer `ns/name`: split at the first `/`, or
/// `common` and the whole name.
pub open spec fn spec_core_parts(core: Seq<char>) -> (Seq<char>, Seq<char>) {
    match split_once(core, '/') {
        Some((a, b)) => (a, b),
        None => ("common"@, core),
    }
}

/// Splits a core layer's name into namespace and name.
pub fn core_parts(core: &str) -> (r: (String, String))
    ensures
        (r.0@, r.1@) == spec_core_parts(core@),
{
    let v = chars_of(core);
    proof {
        reveal_strlit("common");
    }
    match split_once_vec(&v, '/') {
        Some((a, b)) => (string_of(&a), string_of(&b)),
        None => (owned("common"), owned(core)),
    }
}

/// `ns/name:v1.0`, the reference by which skills require their core layer.
pub open spec fn spec_core_ref(ns: Seq<char>, name: Seq<char>) -> Seq<char> {
    ns + "/"@ + name + ":v1.0"@
}

/// The metadata of a core layer shared by the affected skills.
pub open spec fn core_meta_ok(meta: LayerMeta, ns: Seq<char>, name: Seq<char>, affected: Seq<Seq<char>>, sections: Seq<Seq<char>>, author: Seq<char>) -> bool {
    &&& meta.name@ == name
    &&& meta.namespace@ == ns
    &&& meta.version@ == "v1.0"@
    &&& meta.description@ == "Shared core layer for: "@ + join(affected, ", "@)
    &&& meta.author@ == author
    &&& meta.tags@.len() == 0
    &&& strs_view(meta.sections@) == sections
    &&& meta.conflicts@.len() == 0
    &&& meta.requires@.len() == 0
    &&& meta.models@.len() == 0
}

/// The reference by which skills require a core layer.
pub fn core_ref(ns: &str, name: &str) -> (r: String)
    ensures
        r@ == spec_core_ref(ns@, name@),
{
    let a = concat3(ns, "/", name);
    concat2(a.as_str(), ":v1.0")
}

/// The metadata of the core layer made for a group of skills.
pub fn core_layer_meta(ns: &str, name: &str, affected: &Vec<String>, sections: Vec<String>, author: &str) -> (r: LayerMeta)
    ensures
        core_meta_ok(r, ns@, name@, affected.deep_view(), strs_view(sections@), author@),
{
    let list = join_strings(affected, ", ");
    proof {
        reveal_strlit("v1.0");
    }
    LayerMeta {
        name: owned(name),
        namespace: owned(ns),
        version: owned("v1.0"),
        description: concat2("Shared core layer for: ", list.as_str()),
        author: owned(author),
        tags: Vec::new(),
        sections,
        conflicts: Vec::new(),
        requires: Vec::new(),
        models: Vec::new(),
    }
}

/// Adds a requirement to a layer's metadata unless it is already there.
pub fn add_requirement(meta: &mut LayerMeta, req: &str)
    ensures
        strs_view(final(meta).requires@) == (if strs_view(old(meta).requires@).contains(req@) {
            strs_view(old(meta).requires@)
        } else {
            strs_view(old(meta).requires@).push(req@)
        }),
        final(meta).name == old(meta).name,
        final(meta).namespace == old(meta).namespace,
        final(meta).version == old(meta).version,
        final(meta).description == old(meta).description,
        final(meta).author == old(meta).author,
        final(meta).tags == old(meta).tags,
        final(meta).sections == old(meta).sections,
        final(meta).conflicts == old(meta).conflicts,
        final(meta).models == old(meta).models,
{
    if !contains_string(meta.requires.as_slice(), req) {
        let ghost before = strs_view(meta.requires@);
        meta.requires.push(owned(req));
        assert(strs_view(meta.requires@) =~= before.push(req@));
    }
}

// ───────────────────────── layers to export ─────────────────────────

/// A layer directory found below `layers/`: its namespace and name, whether it holds
/// `layer.yaml` itself, and the names of its version subdirectories that hold one.
#[derive(Debug, Clone)]
pub struct FoundLayerDir {
    pub namespace: String,
    pub name: String,
    pub flat: bool,
    pub versions: Vec<String>,
}

/// A found directory as plain values.
pub type FoundView = (Seq<char>, Seq<char>, bool, Seq<Seq<char>>);

/// Found directories as plain values.
pub open spec fn found_view(v: Seq<FoundLayerDir>) -> Seq<FoundView> {
    Seq::new(v.len(), |i: int| (v[i].namespace@, v[i].name@, v[i].flat, strs_view(v[i].versions@)))
}

/// The layers of one found directory, as (reference, directory below `layers/`): nothing
/// when a filter is given that is neither `ns/name` nor the name; the directory itself when
/// it holds `layer.yaml`; else each version as `ns/name:version`.
pub open spec fn dir_refs(e: FoundView, filter: Option<Seq<char>>) -> Seq<(Seq<char>, Seq<char>)> {
    let full = e.0 + "/"@ + e.1;
    if filter matches Some(f) && full != f && e.1 != f {
        seq![]
    } else if e.2 {
        seq![(full, full)]
    } else {
        Seq::new(e.3.len(), |k: int| (full + ":"@ + e.3[k], full + "/"@ + e.3[k]))
    }
}

/// The layers of found directories, in the order found.
pub open spec fn all_refs(es: Seq<FoundView>, filter: Option<Seq<char>>) -> Seq<(Seq<char>, Seq<char>)>
    decreases es.len(),
{
    if es.len() == 0 {
        seq![]
    } else {
        all_refs(es.drop_last(), filter) + dir_refs(es.last(), filter)
    }
}

/// `x` inserted before the first entry whose reference is greater (a stable insertion).
pub open spec fn insert_ref(x: (Seq<char>, Seq<char>), s: Seq<(Seq<char>, Seq<char>)>) -> Seq<(Seq<char>, Seq<char>)>
    decreases s.len(),
{
    if s.len() == 0 {
        seq![x]
    } else if seq_lt(x.0, s[0].0) {
        seq![x] + s
    } else {
        seq![s[0]] + insert_ref(x, s.drop_first())
    }
}

/// Entries sorted by reference (stable).
pub open spec fn sort_refs(s: Seq<(Seq<char>, Seq<char>)>) -> Seq<(Seq<char>, Seq<char>)>
    decreases s.len(),
{
    if s.len() == 0 {
        seq![]
    } else {
        insert_ref(s.last(), sort_refs(s.drop_last()))
    }
}

proof fn lemma_insert_ref_at(x: (Seq<char>, Seq<char>), s: Seq<(Seq<char>, Seq<char>)>, k: int)
    requires
        0 <= k <= s.len(),
        forall|j: int| 0 <= j < k ==> !seq_lt(x.0, s[j].0),
        k < s.len() ==> seq_lt(x.0, s[k].0),
    ensures
        insert_ref(x, s) == s.take(k) + seq![x] + s.skip(k),
    decreases s.len(),
{
    if s.len() == 0 {
        assert(s.take(k) + seq![x] + s.skip(k) =~= seq![x]);
    } else if k == 0 {
        assert(s.take(k) + seq![x] + s.skip(k) =~= seq![x] + s);
    } else {
        lemma_insert_ref_at(x, s.drop_first(), k - 1);
        assert(seq![s[0]] + (s.drop_first().take(k - 1) + seq![x] + s.drop_first().skip(k - 1))
            =~= s.take(k) + seq![x] + s.skip(k));
    }
}

/// Pairs of strings as plain values.
pub open spec fn string_pairs(v: Seq<(String, String)>) -> Seq<(Seq<char>, Seq<char>)> {
    Seq::new(v.len(), |i: int| (v[i].0@, v[i].1@))
}

/// The layers to export from the directories found below `layers/`, as (reference,
/// directory below `layers/`), sorted by reference; with a filter, only the layers whose
/// `ns/name` or name is the filter.
pub fn export_refs(found: &Vec<FoundLayerDir>, filter: Option<&str>) -> (r: Vec<(String, String)>)
    ensures
        string_pairs(r@) == sort_refs(all_refs(
            found_view(found@),
            match filter {
                Some(f) => Some(f@),
                None => None,
            },
        )),
{
    let ghost fv = found_view(found@);
    let ghost fl = match filter {
        Some(f) => Some(f@),
        None => None::<Seq<char>>,
    };
    let mut listed: Vec<(String, String)> = Vec::new();
    let mut i: usize = 0;
    proof {
        reveal_strlit("/");
        reveal_strlit(":");
    }
    assert(string_pairs(listed@) =~= all_refs(fv.take(0), fl));
    while i < found.len()
        invariant
            i <= found@.len(),
            fv == found_view(found@),
            fl == (match filter {
                Some(f) => Some(f@),
                None => None::<Seq<char>>,
            }),
            string_pairs(listed@) == all_refs(fv.take(i as int), fl),
        decreases found@.len() - i,
    {
        proof {
            assert(fv.take(i + 1).drop_last() =~= fv.take(i as int));
            assert(fv.take(i + 1).last() == fv[i as int]);
        }
        let e = &found[i];
        let full = concat3(e.namespace.as_str(), "/", e.name.as_str());
        let skip = match filter {
            Some(f) => !str_eq(full.as_str(), f) && !str_eq(e.name.as_str(), f),
            None => false,
        };
        let ghost before = string_pairs(listed@);
        if skip {
            assert(dir_refs(fv[i as int], fl) =~= Seq::<(Seq<char>, Seq<char>)>::empty());
            assert(before + dir_refs(fv[i as int], fl) =~= before);
        } else if e.flat {
            listed.push((full.clone(), full));
            assert(string_pairs(listed@) =~= before + dir_refs(fv[i as int], fl));
        } else {
            let mut k: usize = 0;
            while k < e.versions.len()
                invariant
                    k <= e.versions@.len(),
                    full@ == e.namespace@ + "/"@ + e.name@,
                    string_pairs(listed@) == before + Seq::new(k as nat, |t: int| (full@ + ":"@ + e.versions@[t]@, full@ + "/"@ + e.versions@[t]@)),
                decreases e.versions@.len() - k,
            {
                let ghost mid = string_pairs(listed@);
                let r = concat3(full.as_str(), ":", e.versions[k].as_str());
                let d = concat3(full.as_str(), "/", e.versions[k].as_str());
                let ghost rd = (r@, d@);
                listed.push((r, d));
                assert(string_pairs(listed@) =~= mid.push(rd));
                assert(string_pairs(listed@) =~= before + Seq::new((k + 1) as nat, |t: int| (full@ + ":"@ + e.versions@[t]@, full@ + "/"@ + e.versions@[t]@)));
                k = k + 1;
            }
            assert(Seq::new(e.versions@.len(), |t: int| (full@ + ":"@ + e.versions@[t]@, full@ + "/"@ + e.versions@[t]@)) =~= dir_refs(fv[i as int], fl));
        }
        i = i + 1;
    }
    assert(fv.take(found@.len() as int) =~= fv);
    sort_pairs(&listed)
}

/// Sorts (name, path) pairs by name, keeping the order of equal names.
pub fn sort_pairs(listed: &Vec<(String, String)>) -> (r: Vec<(String, String)>)
    ensures
        string_pairs(r@) == sort_refs(string_pairs(listed@)),
{
    let ghost all = string_pairs(listed@);
    let mut r: Vec<(String, String)> = Vec::new();
    let mut q: usize = 0;
    assert(sort_refs(all.take(0)) =~= Seq::<(Seq<char>, Seq<char>)>::empty());
    while q < listed.len()
        invariant
            q <= listed@.len(),
            all == string_pairs(listed@),
            string_pairs(r@) == sort_refs(all.take(q as int)),
        decreases listed@.len() - q,
    {
        let x = (listed[q].0.clone(), listed[q].1.clone());
        let ghost xv = (x.0@, x.1@);
        proof {
            assert(xv == all[q as int]);
            assert(all.take(q + 1).drop_last() =~= all.take(q as int));
            assert(all.take(q + 1).last() == all[q as int]);
        }
        let ghost rv = string_pairs(r@);
        let mut p: usize = 0;
        while p < r.len() && !str_lt(x.0.as_str(), r[p].0.as_str())
            invariant
                p <= r@.len(),
                rv == string_pairs(r@),
                forall|j: int| 0 <= j < p ==> !seq_lt(xv.0, rv[j].0),
                xv.0 == x.0@,
            decreases r@.len() - p,
        {
            p = p + 1;
        }
        proof {
            lemma_insert_ref_at(xv, rv, p as int);
        }
        r.insert(p, x);
        assert(string_pairs(r@) =~= rv.take(p as int) + seq![xv] + rv.skip(p as int));
        q = q + 1;
    }
    assert(all.take(listed@.len() as int) =~= all);
    r
}

// ───────────────────────── the steps of an export ─────────────────────────

/// Where `ph export` reads from: the installed skills or the project's layers.
#[derive(Clone, Copy, Debug, PartialEq, Eq, Structural)]
pub enum ExportSource {
    Skills,
    Layers,
}

/// One step of `ph export`.
#[derive(Clone, Copy, Debug, PartialEq, Eq, Structural)]
pub enum ExportStep {
    /// Write each skill (or the one named) out as a layer.
    ExportSkills,
    /// Move the chunks that skills share into core layers, after confirmation.
    Refactor,
    /// Report the chunks that skills share.
    AnalyzeSimilarity,
    /// Copy the project's layers (or the one named) out.
    ExportLayers,
}

/// The steps of an export, in the order in which they run: skills are exported first;
/// when all of them were asked for, the refactoring follows if it was requested, else
/// the similarity analysis unless it was turned off. Layers are only copied.
pub open spec fn spec_export_steps(source: ExportSource, name_given: bool, no_analyze: bool, refactor: bool) -> Seq<ExportStep> {
    match source {
        ExportSource::Skills => {
            if name_given {
                seq![ExportStep::ExportSkills]
            } else if refactor {
                seq![ExportStep::ExportSkills, ExportStep::Refactor]
            } else if !no_analyze {
                seq![ExportStep::ExportSkills, ExportStep::AnalyzeSimilarity]
            } else {
                seq![ExportStep::ExportSkills]
            }
        },
        ExportSource::Layers => seq![ExportStep::ExportLayers],
    }
}

/// The steps that `ph export` runs for its arguments; the caller runs them in order and
/// stops at the first that fails.
pub fn export_steps(source: ExportSource, name_given: bool, no_analyze: bool, refactor: bool) -> (steps: Vec<ExportStep>)
    ensures
        steps@ == spec_export_steps(source, name_given, no_analyze, refactor),
{
    let mut steps: Vec<ExportStep> = Vec::new();
    match source {
        ExportSource::Skills => {
            steps.push(ExportStep::ExportSkills);
            if !name_given {
                if refactor {
                    steps.push(ExportStep::Refactor);
                } else if !no_analyze {
                    steps.push(ExportStep::AnalyzeSimilarity);
                }
            }
        },
        ExportSource::Layers => {
            steps.push(ExportStep::ExportLayers);
        },
    }
    assert(steps@ =~= spec_export_steps(source, name_given, no_analyze, refactor));
    steps
}

} // verus!
