//! The decisions of the command-line tool: new layer names and templates, layer
//! validation, keyword search, namespace filters of listings and line diffs.
use vstd::prelude::*;
use crate::text::{
    chars_of, string_of, owned, concat2, concat3, vviews, lines, lines_vec, split_once,
    split_once_vec, has_prefix, starts_with_vec, contains_seq, contains_vec, lower, to_lowercase,
    vec_eq, str_eq,
};
use crate::strmap::has_key;
use crate::layer::{Layer, LayerMeta, strs_view};

verus! {

// ───────────────────────── new layers ─────────────────────────

/// The namespace and name of `ns/name`, split at the first `/`; a name without `/` goes to
/// the `custom` namespace.
pub open spec fn spec_layer_name(name: Seq<char>) -> (Seq<char>, Seq<char>) {
    match split_once(name, '/') {
        Some((a, b)) => (a, b),
        None => ("custom"@, name),
    }
}

/// Splits a layer name given on the command line into namespace and name.
pub fn parse_layer_name(name: &str) -> (r: (String, String))
    ensures
        (r.0@, r.1@) == spec_layer_name(name@),
{
    let v = chars_of(name);
    proof {
        reveal_strlit("custom");
    }
    match split_once_vec(&v, '/') {
        Some((a, b)) => (string_of(&a), string_of(&b)),
        None => (owned("custom"), owned(name)),
    }
}

/// The `layer.yaml` of a new layer.
pub open spec fn new_layer_yaml(ns: Seq<char>, name: Seq<char>) -> Seq<char> {
    "name: "@ + name + "\nnamespace: "@ + ns
        + "\nversion: v1.0\ndescription: \"\"\nauthor: \"\"\ntags: []\nsections: [role, constraints, output-format]\nconflicts: []\nrequires: []\nmodels: []\n"@
}

/// The metadata file of a new layer, with the sections of the template prompt.
pub fn new_layer_yaml_text(ns: &str, name: &str) -> (r: String)
    ensures
        r@ == new_layer_yaml(ns@, name@),
{
    let a = concat3("name: ", name, "\nnamespace: ");
    concat3(
        a.as_str(),
        ns,
        "\nversion: v1.0\ndescription: \"\"\nauthor: \"\"\ntags: []\nsections: [role, constraints, output-format]\nconflicts: []\nrequires: []\nmodels: []\n",
    )
}

/// The `prompt.md` of a new layer: a role, constraints and an output format to fill in.
pub fn new_layer_prompt() -> (r: String)
    ensures
        r@ == "[role]\nDescribe the role or persona here.\n\n[constraints]\n- Constraint 1\n- Constraint 2\n\n[output-format]\nDescribe the expected output format.\n"@,
{
    owned(
        "[role]\nDescribe the role or persona here.\n\n[constraints]\n- Constraint 1\n- Constraint 2\n\n[output-format]\nDescribe the expected output format.\n",
    )
}

// ───────────────────────── validation ─────────────────────────

/// `declared section '<name>' not found in prompt.md`.
pub open spec fn missing_section_warning(name: Seq<char>) -> Seq<char> {
    "declared section '"@ + name + "' not found in prompt.md"@
}

/// The errors of a layer: a missing name, a missing version, an empty prompt.
pub open spec fn validation_errors(l: Layer) -> Seq<Seq<char>> {
    (if l.meta.name@.len() == 0 { seq!["name is required"@] } else { seq![] })
        + (if l.meta.version@.len() == 0 { seq!["version is required"@] } else { seq![] })
        + (if l.content@.len() == 0 { seq!["prompt.md is empty"@] } else { seq![] })
}

/// The declared sections that the prompt does not hold, from index `i` on.
pub open spec fn missing_sections(l: Layer, declared: Seq<Seq<char>>) -> Seq<Seq<char>>
    decreases declared.len(),
{
    if declared.len() == 0 {
        seq![]
    } else {
        let prev = missing_sections(l, declared.drop_last());
        if has_key(l.sections@, declared.last()) {
            prev
        } else {
            prev.push(missing_section_warning(declared.last()))
        }
    }
}

/// The warnings of a layer: an empty namespace, an empty description, and each declared
/// section missing from the prompt.
pub open spec fn validation_warnings(l: Layer) -> Seq<Seq<char>> {
    (if l.meta.namespace@.len() == 0 {
        seq!["namespace is empty (layers should have a namespace for proper resolution)"@]
    } else {
        seq![]
    }) + (if l.meta.description@.len() == 0 { seq!["description is empty"@] } else { seq![] })
        + missing_sections(l, strs_view(l.meta.sections@))
}

/// Checks a layer: returns its errors and its warnings. The layer is valid when there are
/// no errors.
pub fn validate_layer(l: &Layer) -> (r: (Vec<String>, Vec<String>))
    ensures
        r.0.deep_view() == validation_errors(*l),
        r.1.deep_view() == validation_warnings(*l),
{
    let mut errors: Vec<String> = Vec::new();
    let mut warnings: Vec<String> = Vec::new();
    proof {
        reveal_strlit("name is required");
        reveal_strlit("version is required");
        reveal_strlit("prompt.md is empty");
        reveal_strlit("namespace is empty (layers should have a namespace for proper resolution)");
        reveal_strlit("description is empty");
    }
    if l.meta.name.as_str().is_empty() {
        errors.push(owned("name is required"));
    }
    if l.meta.namespace.as_str().is_empty() {
        warnings.push(owned("namespace is empty (layers should have a namespace for proper resolution)"));
    }
    if l.meta.version.as_str().is_empty() {
        errors.push(owned("version is required"));
    }
    if l.meta.description.as_str().is_empty() {
        warnings.push(owned("description is empty"));
    }
    if l.content.as_str().is_empty() {
        errors.push(owned("prompt.md is empty"));
    }
    assert(errors.deep_view() =~= validation_errors(*l));
    let ghost w0 = warnings.deep_view();
    let ghost dv = strs_view(l.meta.sections@);
    let mut i: usize = 0;
    assert(w0 + missing_sections(*l, dv.take(0)) =~= w0);
    while i < l.meta.sections.len()
        invariant
            i <= l.meta.sections@.len(),
            dv == strs_view(l.meta.sections@),
            warnings.deep_view() == w0 + missing_sections(*l, dv.take(i as int)),
        decreases l.meta.sections@.len() - i,
    {
        proof {
            assert(dv.take(i + 1).drop_last() =~= dv.take(i as int));
            assert(dv.take(i + 1).last() == l.meta.sections@[i as int]@);
        }
        if !l.sections.contains_key(l.meta.sections[i].as_str()) {
            let w = concat3("declared section '", l.meta.sections[i].as_str(), "' not found in prompt.md");
            let ghost before = warnings.deep_view();
            warnings.push(w);
            assert(warnings.deep_view() =~= before.push(w@));
            assert(w0 + missing_sections(*l, dv.take(i + 1)) =~= before.push(w@));
        }
        i = i + 1;
    }
    assert(dv.take(l.meta.sections@.len() as int) =~= dv);
    assert(warnings.deep_view() =~= validation_warnings(*l));
    (errors, warnings)
}

// ───────────────────────── search ─────────────────────────

/// Whether a layer matches a lower-cased keyword: its name, description or one of its tags
/// contains it once lower-cased.
pub open spec fn spec_layer_matches(name: Seq<char>, meta: LayerMeta, kw: Seq<char>) -> bool {
    ||| contains_seq(lower(name), kw)
    ||| contains_seq(lower(meta.description@), kw)
    ||| exists|i: int| 0 <= i < meta.tags@.len() && contains_seq(lower(#[trigger] meta.tags@[i]@), kw)
}

/// A layer matches a keyword when its name, its description or any one of its tags,
/// lower-cased, contains the lower-cased keyword, and only then.
pub proof fn law_search_any_field(name: Seq<char>, meta: LayerMeta, keyword: Seq<char>)
    ensures
        contains_seq(lower(name), lower(keyword)) ==> spec_layer_matches(name, meta, lower(keyword)),
        contains_seq(lower(meta.description@), lower(keyword)) ==> spec_layer_matches(name, meta, lower(keyword)),
        forall|i: int| 0 <= i < meta.tags@.len() && contains_seq(lower(#[trigger] meta.tags@[i]@), lower(keyword))
            ==> spec_layer_matches(name, meta, lower(keyword)),
        spec_layer_matches(name, meta, lower(keyword)) ==> {
            ||| contains_seq(lower(name), lower(keyword))
            ||| contains_seq(lower(meta.description@), lower(keyword))
            ||| exists|i: int| 0 <= i < meta.tags@.len() && contains_seq(lower(#[trigger] meta.tags@[i]@), lower(keyword))
        },
{
}

/// Whether a layer found under `name` matches a search keyword (case-insensitive).
pub fn layer_matches_keyword(name: &str, meta: &LayerMeta, keyword: &str) -> (b: bool)
    ensures
        b == spec_layer_matches(name@, *meta, lower(keyword@)),
{
    let kw = chars_of(to_lowercase(keyword).as_str());
    if contains_vec(&chars_of(to_lowercase(name).as_str()), &kw) {
        return true;
    }
    if contains_vec(&chars_of(to_lowercase(meta.description.as_str()).as_str()), &kw) {
        return true;
    }
    let mut i: usize = 0;
    while i < meta.tags.len()
        invariant
            i <= meta.tags@.len(),
            kw@ == lower(keyword@),
            forall|j: int| 0 <= j < i ==> !contains_seq(lower(#[trigger] meta.tags@[j]@), kw@),
        decreases meta.tags@.len() - i,
    {
        if contains_vec(&chars_of(to_lowercase(meta.tags[i].as_str()).as_str()), &kw) {
            return true;
        }
        i = i + 1;
    }
    false
}

// ───────────────────────── listing ─────────────────────────

/// A layer found on disk as (name, path).
pub open spec fn entries_view(v: Seq<(String, String)>) -> Seq<(Seq<char>, Seq<char>)> {
    Seq::new(v.len(), |i: int| (v[i].0@, v[i].1@))
}

/// The listing of layers: project-local ones first, their names marked ` (local)`, then
/// the global ones; with a namespace filter, only names starting with it.
pub open spec fn spec_listing(
    local: Seq<(Seq<char>, Seq<char>)>,
    global: Seq<(Seq<char>, Seq<char>)>,
    ns: Option<Seq<char>>,
) -> Seq<(Seq<char>, Seq<char>)> {
    let all = Seq::new(local.len(), |i: int| (local[i].0 + " (local)"@, local[i].1)) + global;
    match ns {
        Some(p) => all.filter(|e: (Seq<char>, Seq<char>)| has_prefix(e.0, p)),
        None => all,
    }
}

/// The layers listed for the given local and global findings and namespace filter.
pub fn layer_listing(local: &Vec<(String, String)>, global: &Vec<(String, String)>, ns: Option<&str>) -> (r: Vec<(String, String)>)
    ensures
        entries_view(r@) == spec_listing(
            entries_view(local@),
            entries_view(global@),
            match ns {
                Some(p) => Some(p@),
                None => None,
            },
        ),
{
    let ghost lv = entries_view(local@);
    let ghost gv = entries_view(global@);
    let ghost all = Seq::new(lv.len(), |i: int| (lv[i].0 + " (local)"@, lv[i].1)) + gv;
    let mut every: Vec<(String, String)> = Vec::new();
    let mut i: usize = 0;
    proof {
        reveal_strlit(" (local)");
    }
    while i < local.len()
        invariant
            i <= local@.len(),
            lv == entries_view(local@),
            entries_view(every@) == Seq::new(i as nat, |k: int| (lv[k].0 + " (local)"@, lv[k].1)),
        decreases local@.len() - i,
    {
        let ghost before = entries_view(every@);
        let named = concat2(local[i].0.as_str(), " (local)");
        let path = local[i].1.clone();
        assert(path@ == lv[i as int].1);
        assert(named@ == lv[i as int].0 + " (local)"@);
        every.push((named, path));
        assert(entries_view(every@) =~= before.push((lv[i as int].0 + " (local)"@, lv[i as int].1)));
        assert(entries_view(every@) =~= Seq::new((i + 1) as nat, |k: int| (lv[k].0 + " (local)"@, lv[k].1)));
        i = i + 1;
    }
    let mut j: usize = 0;
    while j < global.len()
        invariant
            j <= global@.len(),
            lv == entries_view(local@),
            gv == entries_view(global@),
            entries_view(every@) == Seq::new(lv.len(), |k: int| (lv[k].0 + " (local)"@, lv[k].1)) + gv.take(j as int),
        decreases global@.len() - j,
    {
        let ghost before = entries_view(every@);
        every.push((global[j].0.clone(), global[j].1.clone()));
        assert(entries_view(every@) =~= before.push(gv[j as int]));
        j = j + 1;
        assert(Seq::new(lv.len(), |k: int| (lv[k].0 + " (local)"@, lv[k].1)) + gv.take(j as int) =~= before.push(gv[(j - 1) as int]));
    }
    assert(gv.take(global@.len() as int) =~= gv);
    assert(entries_view(every@) == all);
    match ns {
        None => every,
        Some(p) => {
            let pv = chars_of(p);
            let ghost pred = |e: (Seq<char>, Seq<char>)| has_prefix(e.0, p@);
            let mut out: Vec<(String, String)> = Vec::new();
            let mut k: usize = 0;
            proof {
                reveal(Seq::filter);
                assert(all.take(0).filter(pred) =~= Seq::<(Seq<char>, Seq<char>)>::empty());
            }
            while k < every.len()
                invariant
                    k <= every@.len(),
                    pv@ == p@,
                    entries_view(every@) == all,
                    pred == (|e: (Seq<char>, Seq<char>)| has_prefix(e.0, p@)),
                    entries_view(out@) == all.take(k as int).filter(pred),
                decreases every@.len() - k,
            {
                proof {
                    assert(all.take(k + 1).drop_last() =~= all.take(k as int));
                    assert(all.take(k + 1).last() == all[k as int]);
                    all.take(k as int).lemma_filter_push(all[k as int], pred);
                    assert(all.take(k as int).push(all[k as int]) =~= all.take(k + 1));
                }
                if starts_with_vec(&chars_of(every[k].0.as_str()), &pv) {
                    let ghost before = entries_view(out@);
                    out.push((every[k].0.clone(), every[k].1.clone()));
                    assert(entries_view(out@) =~= before.push(all[k as int]));
                }
                k = k + 1;
            }
            assert(all.take(every@.len() as int) =~= all);
            out
        },
    }
}

// ───────────────────────── diffs ─────────────────────────

/// A line of a diff between two built prompts.
#[derive(Debug, Clone, PartialEq, Eq)]
pub enum DiffLine {
    /// The same line in both.
    Same(String),
    /// A line of the first only, or changed in the second.
    Removed(String),
    /// A line of the second only, or what a line of the first changed into.
    Added(String),
}

/// A diff line as a plain value: 0 same, 1 removed, 2 added, and the text.
pub open spec fn diff_view(d: DiffLine) -> (int, Seq<char>) {
    match d {
        DiffLine::Same(s) => (0, s@),
        DiffLine::Removed(s) => (1, s@),
        DiffLine::Added(s) => (2, s@),
    }
}

/// The diff lines for line number `i`: the same line once; two different lines as removed
/// then added; a line present on one side only as removed or added.
pub open spec fn diff_at(a: Seq<Seq<char>>, b: Seq<Seq<char>>, i: int) -> Seq<(int, Seq<char>)> {
    if i < a.len() && i < b.len() {
        if a[i] == b[i] {
            seq![(0, a[i])]
        } else {
            seq![(1, a[i]), (2, b[i])]
        }
    } else if i < a.len() {
        seq![(1, a[i])]
    } else if i < b.len() {
        seq![(2, b[i])]
    } else {
        seq![]
    }
}

/// The diff of the first `n` line numbers.
pub open spec fn diff_upto(a: Seq<Seq<char>>, b: Seq<Seq<char>>, n: int) -> Seq<(int, Seq<char>)>
    decreases n,
{
    if n <= 0 {
        seq![]
    } else {
        diff_upto(a, b, n - 1) + diff_at(a, b, n - 1)
    }
}

/// The line-by-line diff of two texts, line number by line number.
pub open spec fn spec_diff(x: Seq<char>, y: Seq<char>) -> Seq<(int, Seq<char>)> {
    let a = lines(x);
    let b = lines(y);
    diff_upto(a, b, if a.len() >= b.len() { a.len() as int } else { b.len() as int })
}

/// Compares two texts line by line.
pub fn diff_lines(first: &str, second: &str) -> (r: Vec<DiffLine>)
    ensures
        Seq::new(r@.len(), |i: int| diff_view(r@[i])) == spec_diff(first@, second@),
{
    let a = lines_vec(&chars_of(first));
    let b = lines_vec(&chars_of(second));
    let ghost av = vviews(a@);
    let ghost bv = vviews(b@);
    let max = if a.len() >= b.len() { a.len() } else { b.len() };
    let mut r: Vec<DiffLine> = Vec::new();
    let mut i: usize = 0;
    while i < max
        invariant
            i <= max,
            max == (if a@.len() >= b@.len() { a@.len() } else { b@.len() }),
            av == vviews(a@),
            bv == vviews(b@),
            Seq::new(r@.len(), |k: int| diff_view(r@[k])) == diff_upto(av, bv, i as int),
        decreases max - i,
    {
        let ghost before = Seq::new(r@.len(), |k: int| diff_view(r@[k]));
        if i < a.len() && i < b.len() {
            assert(av[i as int] == a@[i as int]@ && bv[i as int] == b@[i as int]@);
            if vec_eq(&a[i], &b[i]) {
                r.push(DiffLine::Same(string_of(&a[i])));
            } else {
                r.push(DiffLine::Removed(string_of(&a[i])));
                r.push(DiffLine::Added(string_of(&b[i])));
            }
        } else if i < a.len() {
            assert(av[i as int] == a@[i as int]@);
            r.push(DiffLine::Removed(string_of(&a[i])));
        } else {
            assert(bv[i as int] == b@[i as int]@);
            r.push(DiffLine::Added(string_of(&b[i])));
        }
        assert(Seq::new(r@.len(), |k: int| diff_view(r@[k])) =~= before + diff_at(av, bv, i as int));
        i = i + 1;
    }
    r
}

} // verus!
