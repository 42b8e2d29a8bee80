//! Rendering: `${name}` placeholders are replaced by variable values; includes and the
//! task are appended to the merged prompt.
use vstd::prelude::*;
use vstd::string::StringExecFns;
use crate::error::PromptHubError;
use crate::merger::{MergedPrompt, spec_to_text};
use crate::layer::strs_view;
use crate::strmap::{StrMap, Entries, lookup, lemma_key_index};
use crate::text::{find_first, lemma_find_first_props, concat3};

verus! {

// ───────────────────────── placeholders ─────────────────────────

/// Length of the `${name}` placeholder that starts `s` (name non-empty, without `}`), or 0.
pub open spec fn placeholder_len(s: Seq<char>) -> int {
    if s.len() >= 2 && s[0] == '$' && s[1] == '{' {
        let c = find_first(s.skip(2), '}');
        if c >= 1 {
            c + 3
        } else {
            0
        }
    } else {
        0
    }
}

pub proof fn lemma_placeholder_len(s: Seq<char>)
    ensures
        placeholder_len(s) == 0 || (4 <= placeholder_len(s) <= s.len()),
{
    if s.len() >= 2 {
        lemma_find_first_props(s.skip(2), '}');
    }
}

/// The leftmost-first, non-overlapping matches of the pattern `\$\{([^}]+)\}` in `s`: the
/// text between matches (one more piece than matches) and the captured names.
pub open spec fn scan(s: Seq<char>) -> (Seq<Seq<char>>, Seq<Seq<char>>)
    decreases s.len(),
{
    if s.len() == 0 {
        (seq![seq![]], seq![])
    } else {
        let n = placeholder_len(s);
        proof {
            lemma_placeholder_len(s);
        }
        if n > 0 {
            let (p, names) = scan(s.skip(n));
            (seq![seq![]] + p, seq![s.subrange(2, n - 1)] + names)
        } else {
            let (p, names) = scan(s.drop_first());
            (p.update(0, seq![s[0]] + p[0]), names)
        }
    }
}

pub proof fn lemma_scan_len(s: Seq<char>)
    ensures
        scan(s).0.len() == scan(s).1.len() + 1,
    decreases s.len(),
{
    if s.len() > 0 {
        lemma_placeholder_len(s);
        let n = placeholder_len(s);
        if n > 0 {
            lemma_scan_len(s.skip(n));
        } else {
            lemma_scan_len(s.drop_first());
        }
    }
}

/// The text between `${name}` placeholders, by the regex `\$\{([^}]+)\}` (`Regex::split`).
/// The regex crate documents leftmost-first, non-overlapping matching and one piece for an
/// empty text; for this pattern a match is `${`, one or more characters other than `}`,
/// and the first `}` after them.
#[verifier::external_body]
fn placeholder_pieces(text: &str) -> (r: Vec<String>)
    ensures
        r.deep_view() == scan(text@).0,
{
    let re = regex::Regex::new(r"\$\{([^}]+)\}").unwrap();
    re.split(text).map(|p| p.to_string()).collect()
}

/// The names captured by `\$\{([^}]+)\}` in `text` (`Regex::captures_iter`, group 1), in
/// order; the same matches as `placeholder_pieces`.
#[verifier::external_body]
fn placeholder_names(text: &str) -> (r: Vec<String>)
    ensures
        r.deep_view() == scan(text@).1,
{
    let re = regex::Regex::new(r"\$\{([^}]+)\}").unwrap();
    re.captures_iter(text).map(|c| c[1].to_string()).collect()
}

// ───────────────────────── substitution ─────────────────────────

/// The replacement for a placeholder: the variable's value, or the placeholder itself.
pub open spec fn replacement(vars: Entries, name: Seq<char>) -> Seq<char> {
    match lookup(vars, name) {
        Some(v) => v,
        None => "${"@ + name + "}"@,
    }
}

/// The text up to piece `i`, with placeholders `0..i` replaced.
pub open spec fn subst_prefix(pieces: Seq<Seq<char>>, names: Seq<Seq<char>>, vars: Entries, i: int) -> Seq<char>
    decreases i,
{
    if i <= 0 {
        pieces[0]
    } else {
        subst_prefix(pieces, names, vars, i - 1) + replacement(vars, names[i - 1]) + pieces[i]
    }
}

/// The undefined names among placeholders `0..i`, one entry per occurrence.
pub open spec fn undefined_prefix(names: Seq<Seq<char>>, vars: Entries, i: int) -> Seq<Seq<char>>
    decreases i,
{
    if i <= 0 {
        seq![]
    } else {
        let u = undefined_prefix(names, vars, i - 1);
        if lookup(vars, names[i - 1]) is None {
            u.push(names[i - 1])
        } else {
            u
        }
    }
}

/// Substituting `${name}` in `text`: the result and the undefined names.
pub open spec fn spec_substitute(text: Seq<char>, vars: Entries) -> (Seq<char>, Seq<Seq<char>>) {
    let (p, n) = scan(text);
    (subst_prefix(p, n, vars, n.len() as int), undefined_prefix(n, vars, n.len() as int))
}

/// Substitutes `${var_name}` in text with values from `vars`; a placeholder whose variable
/// is undefined is kept as it is, and its name is reported (once per occurrence).
pub fn substitute_vars_reporting(text: &str, vars: &StrMap) -> (r: (String, Vec<String>))
    ensures
        r.0@ == spec_substitute(text@, vars@).0,
        r.1.deep_view() == spec_substitute(text@, vars@).1,
{
    let pieces = placeholder_pieces(text);
    let names = placeholder_names(text);
    let ghost pv = pieces.deep_view();
    let ghost nv = names.deep_view();
    proof {
        lemma_scan_len(text@);
    }
    let mut out = pieces[0].clone();
    let mut undefined: Vec<String> = Vec::new();
    let mut i: usize = 0;
    assert(undefined.deep_view() =~= Seq::<Seq<char>>::empty());
    while i < names.len()
        invariant
            pv == pieces.deep_view(),
            nv == names.deep_view(),
            pv.len() == nv.len() + 1,
            i <= names.len(),
            out@ == subst_prefix(pv, nv, vars@, i as int),
            undefined.deep_view() == undefined_prefix(nv, vars@, i as int),
        decreases names.len() - i,
    {
        assert(nv[i as int] == names@[i as int]@);
        assert(pv[i + 1] == pieces@[i + 1]@);
        match vars.get(names[i].as_str()) {
            Some(v) => {
                out.append(v.as_str());
            },
            None => {
                let p = concat3("${", names[i].as_str(), "}");
                out.append(p.as_str());
                let ghost before = undefined.deep_view();
                undefined.push(names[i].clone());
                assert(undefined.deep_view() =~= before.push(nv[i as int]));
            },
        }
        out.append(pieces[i + 1].as_str());
        i = i + 1;
    }
    (out, undefined)
}

/// Substitutes `${var_name}` in text with values from `vars`; undefined placeholders are kept.
pub fn substitute_vars(text: &str, vars: &StrMap) -> (r: Result<String, PromptHubError>)
    ensures
        r matches Ok(s) && s@ == spec_substitute(text@, vars@).0,
{
    let (s, _undefined) = substitute_vars_reporting(text, vars);
    Ok(s)
}

/// The merged text followed by each included text, separated by blank lines.
pub open spec fn with_includes(text: Seq<char>, includes: Seq<Seq<char>>) -> Seq<char>
    decreases includes.len(),
{
    if includes.len() == 0 {
        text
    } else {
        with_includes(text, includes.drop_last()) + "\n\n"@ + includes.last()
    }
}

/// The included texts of `(path, content)` pairs.
pub open spec fn include_texts(includes: Seq<(String, String)>) -> Seq<Seq<char>> {
    Seq::new(includes.len(), |i: int| includes[i].1@)
}

/// The rendered prompt and the undefined variable names: the merged text with includes,
/// substituted; then, when there is a task, a `---` separator and the substituted task.
pub open spec fn spec_render(body: Seq<char>, vars: Entries, task: Option<Seq<char>>) -> (Seq<char>, Seq<Seq<char>>) {
    let (t, u) = spec_substitute(body, vars);
    match task {
        Some(tk) => {
            let (tt, tu) = spec_substitute(tk, vars);
            (t + "\n\n---\n\n"@ + tt, u + tu)
        },
        None => (t, u),
    }
}

/// Renders variables in merged prompt content: appends the included texts, substitutes
/// `${var}` placeholders, and appends the (substituted) task after a `---` separator.
/// Returns the text and the names of undefined variables.
pub fn render_variables(
    merged: &MergedPrompt,
    vars: &StrMap,
    task: Option<&str>,
    includes: &[(String, String)],
) -> (r: Result<(String, Vec<String>), PromptHubError>)
    ensures
        r matches Ok((s, u)) && s@ == spec_render(
            with_includes(spec_to_text(merged.sections@, strs_view(merged.section_order@)), include_texts(includes@)),
            vars@,
            match task {
                Some(t) => Some(t@),
                None => None,
            },
        ).0 && u.deep_view() == spec_render(
            with_includes(spec_to_text(merged.sections@, strs_view(merged.section_order@)), include_texts(includes@)),
            vars@,
            match task {
                Some(t) => Some(t@),
                None => None,
            },
        ).1,
{
    let mut text = merged.to_text();
    let ghost t0 = text@;
    let mut i: usize = 0;
    let ghost iv = include_texts(includes@);
    while i < includes.len()
        invariant
            i <= includes.len(),
            iv == include_texts(includes@),
            text@ == with_includes(t0, iv.take(i as int)),
        decreases includes.len() - i,
    {
        proof {
            assert(iv.take(i + 1).drop_last() =~= iv.take(i as int));
            assert(iv.take(i + 1).last() == includes@[i as int].1@);
        }
        text.append("\n\n");
        text.append(includes[i].1.as_str());
        i = i + 1;
    }
    assert(iv.take(includes.len() as int) =~= iv);
    let (mut out, mut undefined) = substitute_vars_reporting(text.as_str(), vars);
    match task {
        Some(t) => {
            let (rt, u2) = substitute_vars_reporting(t, vars);
            out.append("\n\n---\n\n");
            out.append(rt.as_str());
            let ghost before = undefined.deep_view();
            let mut k: usize = 0;
            while k < u2.len()
                invariant
                    k <= u2.len(),
                    undefined.deep_view() == before + u2.deep_view().take(k as int),
                decreases u2.len() - k,
            {
                let ghost b2 = undefined.deep_view();
                undefined.push(u2[k].clone());
                assert(undefined.deep_view() =~= b2.push(u2@[k as int]@));
                assert(u2.deep_view().take(k + 1) =~= u2.deep_view().take(k as int).push(u2@[k as int]@));
                k = k + 1;
                assert(undefined.deep_view() =~= before + u2.deep_view().take(k as int));
            }
            assert(u2.deep_view().take(k as int) =~= u2.deep_view());
        },
        None => {},
    }
    Ok((out, undefined))
}

// ───────────────────────── laws ─────────────────────────

/// The text rebuilt from pieces and names with every placeholder kept.
pub open spec fn rebuild(pieces: Seq<Seq<char>>, names: Seq<Seq<char>>, i: int) -> Seq<char>
    decreases i,
{
    if i <= 0 {
        pieces[0]
    } else {
        rebuild(pieces, names, i - 1) + "${"@ + names[i - 1] + "}"@ + pieces[i]
    }
}

proof fn lemma_rebuild_update(p: Seq<Seq<char>>, n: Seq<Seq<char>>, x: Seq<char>, i: int)
    requires
        p.len() >= 1,
        0 <= i < p.len(),
    ensures
        rebuild(p.update(0, x + p[0]), n, i) == x + rebuild(p, n, i),
    decreases i,
{
    if i > 0 {
        lemma_rebuild_update(p, n, x, i - 1);
        assert(x + rebuild(p, n, i - 1) + "${"@ + n[i - 1] + "}"@ + p[i] =~= x + (rebuild(p, n, i - 1)
            + "${"@ + n[i - 1] + "}"@ + p[i]));
    }
}

proof fn lemma_rebuild_cons(p: Seq<Seq<char>>, n: Seq<Seq<char>>, name: Seq<char>, i: int)
    requires
        p.len() == n.len() + 1,
        0 <= i <= n.len(),
    ensures
        rebuild(seq![seq![]] + p, seq![name] + n, i + 1) == "${"@ + name + "}"@ + rebuild(p, n, i),
    decreases i,
{
    let pp = seq![seq![]] + p;
    let nn = seq![name] + n;
    if i == 0 {
        assert(pp[0] =~= Seq::<char>::empty());
        assert(pp[1] == p[0]);
        assert(nn[0] == name);
        assert(rebuild(pp, nn, 1) == rebuild(pp, nn, 0) + "${"@ + nn[0] + "}"@ + pp[1]);
        assert(Seq::<char>::empty() + "${"@ + name + "}"@ + p[0] =~= "${"@ + name + "}"@ + p[0]);
    } else {
        lemma_rebuild_cons(p, n, name, i - 1);
        assert(pp[i + 1] == p[i]);
        assert(nn[i] == n[i - 1]);
        assert(rebuild(pp, nn, i + 1) == rebuild(pp, nn, i) + "${"@ + nn[i] + "}"@ + pp[i + 1]);
        assert(rebuild(p, n, i) == rebuild(p, n, i - 1) + "${"@ + n[i - 1] + "}"@ + p[i]);
        assert("${"@ + name + "}"@ + rebuild(p, n, i - 1) + "${"@ + n[i - 1] + "}"@ + p[i] =~= "${"@
            + name + "}"@ + (rebuild(p, n, i - 1) + "${"@ + n[i - 1] + "}"@ + p[i]));
    }
}

/// Scanning loses nothing: pieces and `${name}` placeholders, interleaved, give the text back.
pub proof fn lemma_scan_rebuild(s: Seq<char>)
    ensures
        rebuild(scan(s).0, scan(s).1, scan(s).1.len() as int) == s,
    decreases s.len(),
{
    lemma_scan_len(s);
    if s.len() == 0 {
    } else {
        lemma_placeholder_len(s);
        let n = placeholder_len(s);
        if n > 0 {
            let rest = s.skip(n);
            lemma_scan_rebuild(rest);
            lemma_scan_len(rest);
            let (p, names) = scan(rest);
            lemma_rebuild_cons(p, names, s.subrange(2, n - 1), names.len() as int);
            lemma_find_first_props(s.skip(2), '}');
            assert("${"@ =~= seq!['$', '{']) by {
                reveal_strlit("${");
            }
            assert("}"@ =~= seq!['}']) by {
                reveal_strlit("}");
            }
            assert(s.skip(2)[n - 3] == '}');
            assert("${"@ + s.subrange(2, n - 1) + "}"@ + rest =~= s);
        } else {
            let rest = s.drop_first();
            lemma_scan_rebuild(rest);
            lemma_scan_len(rest);
            let (p, names) = scan(rest);
            lemma_rebuild_update(p, names, seq![s[0]], names.len() as int);
            assert(seq![s[0]] + rest =~= s);
        }
    }
}

proof fn lemma_subst_undefined(p: Seq<Seq<char>>, n: Seq<Seq<char>>, vars: Entries, i: int)
    requires
        0 <= i <= n.len(),
        forall|j: int| 0 <= j < n.len() ==> lookup(vars, #[trigger] n[j]) is None,
    ensures
        subst_prefix(p, n, vars, i) == rebuild(p, n, i),
        undefined_prefix(n, vars, i) == n.take(i),
    decreases i,
{
    if i > 0 {
        lemma_subst_undefined(p, n, vars, i - 1);
        assert(lookup(vars, n[i - 1]) is None);
        assert(n.take(i - 1).push(n[i - 1]) =~= n.take(i));
    } else {
        assert(n.take(0) =~= Seq::<Seq<char>>::empty());
    }
}

/// Placeholders of undefined variables stay verbatim: when no placeholder's variable is
/// defined, substitution returns the text unchanged and reports every placeholder name.
pub proof fn law_undefined_kept(text: Seq<char>, vars: Entries)
    requires
        forall|j: int| 0 <= j < scan(text).1.len() ==> lookup(vars, #[trigger] scan(text).1[j]) is None,
    ensures
        spec_substitute(text, vars).0 == text,
        spec_substitute(text, vars).1 == scan(text).1,
{
    let (p, n) = scan(text);
    lemma_subst_undefined(p, n, vars, n.len() as int);
    lemma_scan_rebuild(text);
    assert(n.take(n.len() as int) =~= n);
}

/// Included texts are appended in the order given: appending a list of includes is
/// appending its first part, then the rest; one include is the text, a blank line, and
/// the include.
pub proof fn law_includes_in_order(text: Seq<char>, a: Seq<Seq<char>>, b: Seq<Seq<char>>, x: Seq<char>)
    ensures
        with_includes(text, a + b) == with_includes(with_includes(text, a), b),
        with_includes(text, seq![x]) == text + "\n\n"@ + x,
        with_includes(text, Seq::<Seq<char>>::empty()) == text,
    decreases b.len(),
{
    if b.len() == 0 {
        assert(a + b =~= a);
    } else {
        law_includes_in_order(text, a, b.drop_last(), x);
        assert((a + b).drop_last() =~= a + b.drop_last());
        assert((a + b).last() == b.last());
    }
    let one = seq![x];
    assert(one.drop_last() =~= Seq::<Seq<char>>::empty());
    assert(with_includes(text, one.drop_last()) == text);
    assert(one.last() == x);
    assert(with_includes(text, one) == with_includes(text, one.drop_last()) + "\n\n"@ + one.last());
}

/// With no variables defined, rendering without a task gives the merged text followed by
/// the included texts, in order, unchanged; every placeholder in them is reported.
pub proof fn law_render_includes_unchanged(text: Seq<char>, includes: Seq<Seq<char>>)
    ensures
        spec_render(with_includes(text, includes), Seq::<(Seq<char>, Seq<char>)>::empty(), None).0 == with_includes(text, includes),
        spec_render(with_includes(text, includes), Seq::<(Seq<char>, Seq<char>)>::empty(), None).1 == scan(with_includes(text, includes)).1,
{
    let body = with_includes(text, includes);
    let e = Seq::<(Seq<char>, Seq<char>)>::empty();
    assert forall|j: int| 0 <= j < scan(body).1.len() implies lookup(e, #[trigger] scan(body).1[j]) is None by {
        lemma_key_index(e, scan(body).1[j]);
    }
    law_undefined_kept(body, e);
}

} // verus!
