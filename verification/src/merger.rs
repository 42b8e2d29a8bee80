//! Merging layers: a later layer's section replaces the same section of an earlier one,
//! new sections are appended in name order; declared conflicts between layers are refused.
use vstd::prelude::*;
use vstd::string::StringExecFns;
use crate::error::PromptHubError;
use crate::layer::{Layer, spec_full_name, strs_view, contains_string, keys_not_in, lemma_keys_not_in};
use crate::strmap::{StrMap, Entries, entries_insert, has_key, lookup, keys_of, distinct_keys,
    key_index, lemma_key_index, lemma_key_index_at, lemma_key_index_none, lemma_insert};
use crate::text::{concat2, concat3, sort_seqs, sort_strings, lemma_sort_seqs_elems, lemma_sort_seqs_sorted,
    lemma_sorted_unique, sorted_seqs};

verus! {

/// Result of merging multiple layers.
#[derive(Debug)]
pub struct MergedPrompt {
    /// Final merged sections (section_name -> content)
    pub sections: StrMap,
    /// Order of sections for output
    pub section_order: Vec<String>,
    /// Warnings generated during merge
    pub warnings: Vec<String>,
    /// Params from Promptfile
    pub params: StrMap,
}

// ───────────────────────── rendering merged sections ─────────────────────────

/// The non-empty contents of the sections named in `order`, in that order.
pub open spec fn ordered_parts(e: Entries, order: Seq<Seq<char>>) -> Seq<Seq<char>>
    decreases order.len(),
{
    if order.len() == 0 {
        seq![]
    } else {
        let p = ordered_parts(e, order.drop_last());
        match lookup(e, order.last()) {
            Some(c) => if c.len() > 0 {
                p.push(c)
            } else {
                p
            },
            None => p,
        }
    }
}

/// The names in `order` whose section exists and is non-empty.
pub open spec fn nonempty_names(e: Entries, order: Seq<Seq<char>>) -> Seq<Seq<char>>
    decreases order.len(),
{
    if order.len() == 0 {
        seq![]
    } else {
        let p = nonempty_names(e, order.drop_last());
        match lookup(e, order.last()) {
            Some(c) => if c.len() > 0 {
                p.push(order.last())
            } else {
                p
            },
            None => p,
        }
    }
}

/// The pieces of a rendered prompt: sections in `order` first, then the other sections
/// sorted by name; empty sections are left out.
pub open spec fn text_parts(e: Entries, order: Seq<Seq<char>>) -> Seq<Seq<char>> {
    ordered_parts(e, order) + ordered_parts(e, sort_seqs(keys_not_in(keys_of(e), nonempty_names(e, order))))
}

/// `parts.join(sep)`.
pub open spec fn join(parts: Seq<Seq<char>>, sep: Seq<char>) -> Seq<char>
    decreases parts.len(),
{
    if parts.len() == 0 {
        seq![]
    } else if parts.len() == 1 {
        parts[0]
    } else {
        join(parts.drop_last(), sep) + sep + parts.last()
    }
}

/// The text of merged sections.
pub open spec fn spec_to_text(e: Entries, order: Seq<Seq<char>>) -> Seq<char> {
    join(text_parts(e, order), "\n\n"@)
}

/// Appends to `parts`/`names` the non-empty sections named in `order`.
fn collect_parts(
    sections: &StrMap,
    order: &[String],
    parts: &mut Vec<String>,
    names: &mut Vec<String>,
)
    ensures
        final(parts).deep_view() == old(parts).deep_view() + ordered_parts(sections@, strs_view(order@)),
        final(names).deep_view() == old(names).deep_view() + nonempty_names(sections@, strs_view(order@)),
{
    let mut i: usize = 0;
    let ghost ov = strs_view(order@);
    assert(old(parts).deep_view() + Seq::<Seq<char>>::empty() =~= old(parts).deep_view());
    assert(old(names).deep_view() + Seq::<Seq<char>>::empty() =~= old(names).deep_view());
    assert(ov.take(0) =~= Seq::<Seq<char>>::empty());
    while i < order.len()
        invariant
            i <= order.len(),
            ov == strs_view(order@),
            parts.deep_view() == old(parts).deep_view() + ordered_parts(sections@, ov.take(i as int)),
            names.deep_view() == old(names).deep_view() + nonempty_names(sections@, ov.take(i as int)),
        decreases order.len() - i,
    {
        proof {
            assert(ov.take(i + 1).drop_last() =~= ov.take(i as int));
            assert(ov.take(i + 1).last() == order@[i as int]@);
        }
        let ghost pv = parts.deep_view();
        let ghost nv = names.deep_view();
        match sections.get(order[i].as_str()) {
            Some(c) => {
                if !c.as_str().is_empty() {
                    parts.push(c.clone());
                    names.push(order[i].clone());
                    assert(parts.deep_view() =~= pv.push(c@));
                    assert(names.deep_view() =~= nv.push(order@[i as int]@));
                    assert(old(parts).deep_view() + ordered_parts(sections@, ov.take(i as int)).push(c@)
                        =~= pv.push(c@));
                    assert(old(names).deep_view() + nonempty_names(sections@, ov.take(i as int)).push(order@[i as int]@)
                        =~= nv.push(order@[i as int]@));
                }
            },
            None => {},
        }
        i = i + 1;
    }
    assert(ov.take(order.len() as int) =~= ov);
}

/// Joins strings with a separator.
pub fn join_strings(parts: &Vec<String>, sep: &str) -> (r: String)
    ensures
        r@ == join(parts.deep_view(), sep@),
{
    let mut r = String::new();
    let mut i: usize = 0;
    let ghost pv = parts.deep_view();
    while i < parts.len()
        invariant
            i <= parts.len(),
            pv == parts.deep_view(),
            r@ == join(pv.take(i as int), sep@),
        decreases parts.len() - i,
    {
        proof {
            assert(pv.take(i + 1).drop_last() =~= pv.take(i as int));
            assert(pv.take(i + 1).last() == parts@[i as int]@);
        }
        if i > 0 {
            r.append(sep);
        } else {
            assert(r@ =~= Seq::<char>::empty());
        }
        r.append(parts[i].as_str());
        assert(i == 0 ==> pv.take(i + 1) =~= seq![parts@[i as int]@]);
        i = i + 1;
    }
    assert(pv.take(parts.len() as int) =~= pv);
    r
}

impl MergedPrompt {
    /// Renders merged sections to a single string: the sections in `section_order` first,
    /// then the remaining ones sorted by name, empty sections left out, separated by a blank line.
    pub fn to_text(&self) -> (r: String)
        ensures
            r@ == spec_to_text(self.sections@, strs_view(self.section_order@)),
    {
        let mut parts: Vec<String> = Vec::new();
        let mut written: Vec<String> = Vec::new();
        assert(parts.deep_view() =~= Seq::<Seq<char>>::empty());
        assert(written.deep_view() =~= Seq::<Seq<char>>::empty());
        collect_parts(&self.sections, self.section_order.as_slice(), &mut parts, &mut written);
        let ghost first = parts.deep_view();
        let remaining = crate::layer::remaining_keys(&self.sections, written.as_slice());
        assert(strs_view(written@) =~= written.deep_view());
        let sorted = sort_strings(&remaining);
        assert(strs_view(sorted@) =~= sorted.deep_view());
        let mut names2: Vec<String> = Vec::new();
        collect_parts(&self.sections, sorted.as_slice(), &mut parts, &mut names2);
        assert(parts.deep_view() =~= text_parts(self.sections@, strs_view(self.section_order@)));
        join_strings(&parts, "\n\n")
    }
}

// ───────────────────────── conflicts ─────────────────────────

/// What conflict detection reads of a layer: full name, bare name, declared conflicts.
pub open spec fn layer_info(l: Layer) -> (Seq<char>, Seq<char>, Seq<Seq<char>>) {
    (spec_full_name(l.meta.namespace@, l.meta.name@), l.meta.name@, l.meta.conflicts.deep_view())
}

/// The base layer followed by the additional ones.
pub open spec fn all_infos(base: Layer, additional: Seq<Layer>) -> Seq<(Seq<char>, Seq<char>, Seq<Seq<char>>)> {
    Seq::new(additional.len() + 1, |i: int| if i == 0 { layer_info(base) } else { layer_info(additional[i - 1]) })
}

/// Layer `i` declares conflict number `c` against layer `j` (by full or bare name).
pub open spec fn conflict_at(ls: Seq<(Seq<char>, Seq<char>, Seq<Seq<char>>)>, i: int, c: int, j: int) -> bool {
    &&& 0 <= i < ls.len()
    &&& 0 <= j < ls.len()
    &&& 0 <= c < ls[i].2.len()
    &&& i != j
    &&& (ls[j].0 == ls[i].2[c] || ls[j].1 == ls[i].2[c])
}

pub open spec fn scan_j(ls: Seq<(Seq<char>, Seq<char>, Seq<Seq<char>>)>, i: int, c: int, j: int) -> Option<int>
    decreases ls.len() - j,
{
    if j < 0 || j >= ls.len() {
        None
    } else if conflict_at(ls, i, c, j) {
        Some(j)
    } else {
        scan_j(ls, i, c, j + 1)
    }
}

pub open spec fn scan_c(ls: Seq<(Seq<char>, Seq<char>, Seq<Seq<char>>)>, i: int, c: int) -> Option<int>
    decreases (if 0 <= i < ls.len() { ls[i].2.len() } else { 0 }) - c,
{
    if i < 0 || i >= ls.len() || c < 0 || c >= ls[i].2.len() {
        None
    } else {
        match scan_j(ls, i, c, 0) {
            Some(j) => Some(j),
            None => scan_c(ls, i, c + 1),
        }
    }
}

/// The first conflict `(i, j)`: layer `i` conflicts with layer `j`, in the order layers,
/// then declarations, then other layers are examined.
pub open spec fn scan_i(ls: Seq<(Seq<char>, Seq<char>, Seq<Seq<char>>)>, i: int) -> Option<(int, int)>
    decreases ls.len() - i,
{
    if i < 0 || i >= ls.len() {
        None
    } else {
        match scan_c(ls, i, 0) {
            Some(j) => Some((i, j)),
            None => scan_i(ls, i + 1),
        }
    }
}

fn layer_at<'a>(base: &'a Layer, additional: &'a [Layer], i: usize) -> (r: &'a Layer)
    requires
        i <= additional@.len(),
    ensures
        layer_info(*r) == all_infos(*base, additional@)[i as int],
{
    if i == 0 {
        base
    } else {
        &additional[i - 1]
    }
}

fn check_conflicts(base: &Layer, additional: &[Layer]) -> (r: Result<(), PromptHubError>)
    requires
        additional@.len() < usize::MAX,
    ensures
        match scan_i(all_infos(*base, additional@), 0) {
            None => r is Ok,
            Some((i, j)) => r matches Err(PromptHubError::ConflictError(a, b))
                && a@ == all_infos(*base, additional@)[i].0 && b@ == all_infos(*base, additional@)[j].0,
        },
{
    let ghost ls = all_infos(*base, additional@);
    let n = additional.len() + 1;
    let mut i: usize = 0;
    while i < n
        invariant
            n == ls.len(),
            ls == all_infos(*base, additional@),
            i <= n,
            scan_i(ls, 0) == scan_i(ls, i as int),
        decreases n - i,
    {
        let layer = layer_at(base, additional, i);
        let conflicts = &layer.meta.conflicts;
        let mut c: usize = 0;
        while c < conflicts.len()
            invariant
                n == ls.len(),
                ls == all_infos(*base, additional@),
                i < n,
                scan_i(ls, 0) == scan_i(ls, i as int),
                layer_info(*layer) == ls[i as int],
                c <= conflicts.len(),
                ls[i as int].2 == conflicts.deep_view(),
                scan_c(ls, i as int, 0) == scan_c(ls, i as int, c as int),
            decreases conflicts.len() - c,
        {
            let mut j: usize = 0;
            while j < n
                invariant
                    n == ls.len(),
                    ls == all_infos(*base, additional@),
                    i < n,
                    scan_i(ls, 0) == scan_i(ls, i as int),
                    scan_c(ls, i as int, 0) == scan_c(ls, i as int, c as int),
                    layer_info(*layer) == ls[i as int],
                    c < conflicts.len(),
                    ls[i as int].2 == conflicts.deep_view(),
                    j <= n,
                    scan_j(ls, i as int, c as int, 0) == scan_j(ls, i as int, c as int, j as int),
                decreases n - j,
            {
                let other = layer_at(base, additional, j);
                let ofull = other.full_name();
                if i != j && (crate::text::str_eq(ofull.as_str(), conflicts[c].as_str())
                    || crate::text::str_eq(other.meta.name.as_str(), conflicts[c].as_str())) {
                    assert(conflict_at(ls, i as int, c as int, j as int));
                    let a = layer.full_name();
                    return Err(PromptHubError::ConflictError(a, ofull));
                }
                j = j + 1;
            }
            c = c + 1;
        }
        i = i + 1;
    }
    Ok(())
}

// ───────────────────────── merging ─────────────────────────

/// The merge state: sections, output order, warnings.
pub struct MergeState {
    pub sections: Entries,
    pub order: Seq<Seq<char>>,
    pub warnings: Seq<Seq<char>>,
}

/// `keys` appended to `order`, skipping names already present.
pub open spec fn add_unique(order: Seq<Seq<char>>, keys: Seq<Seq<char>>) -> Seq<Seq<char>>
    decreases keys.len(),
{
    if keys.len() == 0 {
        order
    } else {
        let o = add_unique(order, keys.drop_last());
        if o.contains(keys.last()) {
            o
        } else {
            o.push(keys.last())
        }
    }
}

/// The warning for a section replaced by a later layer.
pub open spec fn override_warning(section: Seq<char>, layer: Seq<char>) -> Seq<char> {
    "Section '"@ + section + "' overridden by layer '"@ + layer + "'"@
}

/// Applying one section of layer `f`: an existing section is replaced (with a warning),
/// a new one is added and appended to the order.
pub open spec fn merge_entry(st: MergeState, f: Seq<char>, k: Seq<char>, v: Seq<char>) -> MergeState {
    if has_key(st.sections, k) {
        MergeState {
            sections: entries_insert(st.sections, k, v),
            order: st.order,
            warnings: st.warnings.push(override_warning(k, f)),
        }
    } else {
        MergeState {
            sections: entries_insert(st.sections, k, v),
            order: if st.order.contains(k) {
                st.order
            } else {
                st.order.push(k)
            },
            warnings: st.warnings,
        }
    }
}

/// Applying all sections of layer `f`, in order.
pub open spec fn merge_entries(st: MergeState, f: Seq<char>, e: Entries) -> MergeState
    decreases e.len(),
{
    if e.len() == 0 {
        st
    } else {
        merge_entry(merge_entries(st, f, e.drop_last()), f, e.last().0, e.last().1)
    }
}

/// The text stored under `k` (empty when there is none).
pub open spec fn value_of(e: Entries, k: Seq<char>) -> Seq<char> {
    match lookup(e, k) {
        Some(v) => v,
        None => seq![],
    }
}

/// The sections of a layer in the order of their names, so that a merge depends only on
/// which text each name has, not on where it stands in the layer's map.
pub open spec fn sorted_entries(e: Entries) -> Entries {
    Seq::new(sort_seqs(keys_of(e)).len(), |i: int| (sort_seqs(keys_of(e))[i], value_of(e, sort_seqs(keys_of(e))[i])))
}

proof fn lemma_keys_no_dup(e: Entries)
    requires
        distinct_keys(e),
    ensures
        keys_of(e).no_duplicates(),
        forall|k: Seq<char>| #[trigger] keys_of(e).contains(k) <==> has_key(e, k),
{
    assert forall|a: int, b: int| 0 <= a < keys_of(e).len() && 0 <= b < keys_of(e).len() && a != b
        implies keys_of(e)[a] != keys_of(e)[b] by {
        if a < b {
            assert(e[a].0 != e[b].0);
        } else {
            assert(e[b].0 != e[a].0);
        }
    }
    assert forall|k: Seq<char>| #[trigger] keys_of(e).contains(k) <==> has_key(e, k) by {
        lemma_key_index(e, k);
    }
}

/// Sorting a layer's sections keeps them: distinct names, each with its text.
proof fn lemma_sorted_entries(e: Entries)
    requires
        distinct_keys(e),
    ensures
        distinct_keys(sorted_entries(e)),
        forall|k: Seq<char>| #[trigger] lookup(sorted_entries(e), k) == lookup(e, k),
{
    let ks = sort_seqs(keys_of(e));
    let se = sorted_entries(e);
    lemma_keys_no_dup(e);
    lemma_sort_seqs_elems(keys_of(e));
    assert(distinct_keys(se)) by {
        assert forall|a: int, b: int| 0 <= a < b < se.len() implies se[a].0 != se[b].0 by {
            assert(se[a].0 == ks[a]);
            assert(se[b].0 == ks[b]);
        }
    }
    assert forall|k: Seq<char>| #[trigger] lookup(se, k) == lookup(e, k) by {
        lemma_key_index(e, k);
        if ks.contains(k) {
            let i = choose|i: int| 0 <= i < ks.len() && ks[i] == k;
            assert forall|j: int| 0 <= j < i implies se[j].0 != k by {
                assert(se[j].0 == ks[j]);
            }
            lemma_key_index_at(se, k, i);
            assert(keys_of(e).contains(k));
        } else {
            assert forall|j: int| 0 <= j < se.len() implies se[j].0 != k by {
                assert(se[j].0 == ks[j]);
            }
            lemma_key_index_none(se, k);
            assert(!keys_of(e).contains(k));
        }
    }
}

/// Applying layers (full name, sections), in order; each layer's sections in name order.
pub open spec fn merge_all(st: MergeState, adds: Seq<(Seq<char>, Entries)>) -> MergeState
    decreases adds.len(),
{
    if adds.len() == 0 {
        st
    } else {
        let s = merge_all(st, adds.drop_last());
        merge_entries(s, adds.last().0, sorted_entries(adds.last().1))
    }
}

/// What merging reads of the additional layers: full name and sections.
pub open spec fn adds_view(additional: Seq<Layer>) -> Seq<(Seq<char>, Entries)> {
    Seq::new(additional.len(), |i: int| (spec_full_name(additional[i].meta.namespace@, additional[i].meta.name@), additional[i].sections@))
}

/// The state after the base layer: its sections, the order declared in its metadata followed
/// by its other sections in name order.
pub open spec fn base_state(base: Layer) -> MergeState {
    MergeState {
        sections: base.sections@,
        order: add_unique(base.meta.sections.deep_view(), sort_seqs(keys_of(base.sections@))),
        warnings: seq![],
    }
}

/// The result of merging `base` with `additional`.
pub open spec fn spec_merge(base: Layer, additional: Seq<Layer>) -> MergeState {
    merge_all(base_state(base), adds_view(additional))
}

fn clone_strings(v: &Vec<String>) -> (r: Vec<String>)
    ensures
        r.deep_view() == v.deep_view(),
{
    let mut r: Vec<String> = Vec::new();
    let mut i: usize = 0;
    while i < v.len()
        invariant
            i <= v.len(),
            r.deep_view() == v.deep_view().take(i as int),
        decreases v.len() - i,
    {
        let ghost before = r.deep_view();
        r.push(v[i].clone());
        assert(r.deep_view() =~= before.push(v@[i as int]@));
        i = i + 1;
        assert(r.deep_view() =~= v.deep_view().take(i as int));
    }
    assert(v.deep_view().take(i as int) =~= v.deep_view());
    r
}

fn override_warning_exec(section: &str, layer: &str) -> (r: String)
    ensures
        r@ == override_warning(section@, layer@),
{
    let a = concat3("Section '", section, "' overridden by layer '");
    concat3(a.as_str(), layer, "'")
}

/// Merges a base layer with additional layers: the base's sections that its metadata does
/// not list follow the listed ones in name order; each additional layer's sections are
/// applied in name order, the same section name overriding (with a warning), a new one
/// being appended. Fails when a layer declares a conflict with another layer.
pub fn merge_layers(base: &Layer, additional: &[Layer], params: StrMap) -> (r: Result<MergedPrompt, PromptHubError>)
    requires
        additional@.len() < usize::MAX,
    ensures
        match scan_i(all_infos(*base, additional@), 0) {
            Some((i, j)) => r matches Err(PromptHubError::ConflictError(a, b))
                && a@ == all_infos(*base, additional@)[i].0 && b@ == all_infos(*base, additional@)[j].0,
            None => r matches Ok(m)
                && m.sections@ == spec_merge(*base, additional@).sections
                && strs_view(m.section_order@) == spec_merge(*base, additional@).order
                && m.warnings.deep_view() == spec_merge(*base, additional@).warnings
                && m.params@ == params@,
        },
{
    check_conflicts(base, additional)?;
    let mut sections = base.sections.clone();
    let mut order = clone_strings(&base.meta.sections);
    let mut warnings: Vec<String> = Vec::new();
    let unsorted = base.sections.keys();
    let keys = sort_strings(&unsorted);
    let mut i: usize = 0;
    let ghost kv = keys.deep_view();
    assert(warnings.deep_view() =~= Seq::<Seq<char>>::empty());
    while i < keys.len()
        invariant
            i <= keys.len(),
            kv == keys.deep_view(),
            kv == sort_seqs(keys_of(base.sections@)),
            order.deep_view() == add_unique(base.meta.sections.deep_view(), kv.take(i as int)),
        decreases keys.len() - i,
    {
        proof {
            assert(kv.take(i + 1).drop_last() =~= kv.take(i as int));
            assert(kv.take(i + 1).last() == keys@[i as int]@);
            assert(strs_view(order@) =~= order.deep_view());
        }
        if !contains_string(order.as_slice(), keys[i].as_str()) {
            let ghost before = order.deep_view();
            order.push(keys[i].clone());
            assert(order.deep_view() =~= before.push(keys@[i as int]@));
        }
        i = i + 1;
    }
    assert(kv.take(keys.len() as int) =~= kv);
    let ghost adds = adds_view(additional@);
    let mut li: usize = 0;
    assert(adds.take(0) =~= Seq::<(Seq<char>, Entries)>::empty());
    while li < additional.len()
        invariant
            li <= additional.len(),
            adds == adds_view(additional@),
            merge_all(base_state(*base), adds.take(li as int)) == (MergeState {
                sections: sections@,
                order: order.deep_view(),
                warnings: warnings.deep_view(),
            }),
        decreases additional.len() - li,
    {
        let layer = &additional[li];
        let f = layer.full_name();
        let ghost e0 = layer.sections@;
        let ghost e = sorted_entries(e0);
        let lkeys = sort_strings(&layer.sections.keys());
        proof {
            lemma_keys_no_dup(e0);
            lemma_sort_seqs_elems(keys_of(e0));
            assert(lkeys.deep_view() == sort_seqs(keys_of(e0)));
        }
        let ghost st0 = MergeState { sections: sections@, order: order.deep_view(), warnings: warnings.deep_view() };
        let mut k: usize = 0;
        assert(e.take(0) =~= Seq::<(Seq<char>, Seq<char>)>::empty());
        while k < lkeys.len()
            invariant
                k <= lkeys@.len(),
                e0 == layer.sections@,
                e == sorted_entries(e0),
                lkeys.deep_view() == sort_seqs(keys_of(e0)),
                forall|y: Seq<char>| #[trigger] sort_seqs(keys_of(e0)).contains(y) <==> keys_of(e0).contains(y),
                forall|y: Seq<char>| #[trigger] keys_of(e0).contains(y) <==> has_key(e0, y),
                f@ == spec_full_name(layer.meta.namespace@, layer.meta.name@),
                merge_entries(st0, f@, e.take(k as int)) == (MergeState {
                    sections: sections@,
                    order: order.deep_view(),
                    warnings: warnings.deep_view(),
                }),
            decreases lkeys@.len() - k,
        {
            let key = &lkeys[k];
            proof {
                assert(lkeys.deep_view()[k as int] == key@);
                assert(sort_seqs(keys_of(e0)).contains(key@));
                lemma_key_index(e0, key@);
            }
            let val = match layer.sections.get(key.as_str()) {
                Some(v) => v,
                None => {
                    assert(false);
                    key
                },
            };
            proof {
                assert(e[k as int] == (key@, val@));
                assert(e.take(k + 1).drop_last() =~= e.take(k as int));
                assert(e.take(k + 1).last() == e[k as int]);
                assert(strs_view(order@) =~= order.deep_view());
            }
            if sections.contains_key(key.as_str()) {
                let ghost before = warnings.deep_view();
                warnings.push(override_warning_exec(key.as_str(), f.as_str()));
                assert(warnings.deep_view() =~= before.push(override_warning(key@, f@)));
                sections.insert(key.clone(), val.clone());
            } else {
                sections.insert(key.clone(), val.clone());
                if !contains_string(order.as_slice(), key.as_str()) {
                    let ghost before = order.deep_view();
                    order.push(key.clone());
                    assert(order.deep_view() =~= before.push(key@));
                }
            }
            k = k + 1;
        }
        proof {
            assert(e.take(e.len() as int) =~= e);
            assert(adds.take(li + 1).drop_last() =~= adds.take(li as int));
            assert(adds.take(li + 1).last() == (f@, e0));
        }
        li = li + 1;
    }
    assert(adds.take(additional.len() as int) =~= adds);
    assert(strs_view(order@) =~= order.deep_view());
    Ok(MergedPrompt { sections, section_order: order, warnings, params })
}

// ───────────────────────── laws ─────────────────────────

/// The text a section ends with: that of the last additional layer defining it, else the base's.
pub open spec fn final_value(base: Entries, adds: Seq<(Seq<char>, Entries)>, k: Seq<char>) -> Option<Seq<char>>
    decreases adds.len(),
{
    if adds.len() == 0 {
        lookup(base, k)
    } else {
        match lookup(adds.last().1, k) {
            Some(v) => Some(v),
            None => final_value(base, adds.drop_last(), k),
        }
    }
}

proof fn lemma_lookup_last(e: Entries, k: Seq<char>)
    requires
        distinct_keys(e),
        e.len() > 0,
    ensures
        lookup(e, k) == if e.last().0 == k {
            Some(e.last().1)
        } else {
            lookup(e.drop_last(), k)
        },
{
    let d = e.drop_last();
    lemma_key_index(e, k);
    lemma_key_index(d, k);
    if e.last().0 == k {
        lemma_key_index_at(e, k, e.len() - 1);
    } else {
        let j = key_index(d, k);
        if j >= 0 {
            lemma_key_index_at(e, k, j);
        } else {
            assert forall|j2: int| 0 <= j2 < e.len() implies e[j2].0 != k by {
                if j2 < e.len() - 1 {
                    assert(e[j2] == d[j2]);
                }
            }
            lemma_key_index_none(e, k);
        }
    }
}

proof fn lemma_merge_entries_lookup(st: MergeState, f: Seq<char>, e: Entries, k: Seq<char>)
    requires
        distinct_keys(st.sections),
        distinct_keys(e),
    ensures
        distinct_keys(merge_entries(st, f, e).sections),
        lookup(merge_entries(st, f, e).sections, k) == match lookup(e, k) {
            Some(v) => Some(v),
            None => lookup(st.sections, k),
        },
    decreases e.len(),
{
    if e.len() > 0 {
        let d = e.drop_last();
        assert(distinct_keys(d));
        lemma_merge_entries_lookup(st, f, d, k);
        let s1 = merge_entries(st, f, d);
        lemma_insert(s1.sections, e.last().0, e.last().1);
        lemma_lookup_last(e, k);
    } else {
        lemma_key_index_none(e, k);
    }
}

proof fn lemma_merge_all_lookup(st: MergeState, adds: Seq<(Seq<char>, Entries)>, k: Seq<char>)
    requires
        distinct_keys(st.sections),
        forall|i: int| 0 <= i < adds.len() ==> distinct_keys(#[trigger] adds[i].1),
    ensures
        distinct_keys(merge_all(st, adds).sections),
        lookup(merge_all(st, adds).sections, k) == final_value(st.sections, adds, k),
    decreases adds.len(),
{
    if adds.len() > 0 {
        let d = adds.drop_last();
        assert forall|i: int| 0 <= i < d.len() implies distinct_keys(#[trigger] d[i].1) by {
            assert(d[i] == adds[i]);
        }
        lemma_merge_all_lookup(st, d, k);
        assert(distinct_keys(adds[adds.len() - 1].1));
        lemma_sorted_entries(adds.last().1);
        lemma_merge_entries_lookup(merge_all(st, d), adds.last().0, sorted_entries(adds.last().1), k);
    }
}

/// Later layers override earlier ones: after a merge, a section holds the text of the last
/// additional layer that defines it, and the base layer's text when none does.
pub proof fn law_later_layer_overrides(base: Layer, additional: Seq<Layer>, k: Seq<char>)
    requires
        distinct_keys(base.sections@),
        forall|i: int| 0 <= i < additional.len() ==> distinct_keys(#[trigger] additional[i].sections@),
    ensures
        lookup(spec_merge(base, additional).sections, k) == final_value(base.sections@, adds_view(additional), k),
{
    let adds = adds_view(additional);
    assert forall|i: int| 0 <= i < adds.len() implies distinct_keys(#[trigger] adds[i].1) by {
        assert(adds[i].1 == additional[i].sections@);
    }
    lemma_merge_all_lookup(base_state(base), adds, k);
}

/// `a` is a prefix of `b`.
pub open spec fn is_prefix(a: Seq<Seq<char>>, b: Seq<Seq<char>>) -> bool {
    a.len() <= b.len() && b.take(a.len() as int) == a
}

proof fn lemma_prefix_push(a: Seq<Seq<char>>, b: Seq<Seq<char>>, x: Seq<char>)
    requires
        is_prefix(a, b),
    ensures
        is_prefix(a, b.push(x)),
{
    assert(b.push(x).take(a.len() as int) =~= b.take(a.len() as int));
}

proof fn lemma_add_unique_prefix(order: Seq<Seq<char>>, keys: Seq<Seq<char>>)
    ensures
        is_prefix(order, add_unique(order, keys)),
        forall|i: int| 0 <= i < keys.len() ==> add_unique(order, keys).contains(#[trigger] keys[i]),
    decreases keys.len(),
{
    if keys.len() == 0 {
        assert(order.take(order.len() as int) =~= order);
    } else {
        let d = keys.drop_last();
        lemma_add_unique_prefix(order, d);
        let o = add_unique(order, d);
        if !o.contains(keys.last()) {
            lemma_prefix_push(order, o, keys.last());
            assert(o.push(keys.last())[o.len() as int] == keys.last());
        }
        assert forall|i: int| 0 <= i < keys.len() implies add_unique(order, keys).contains(#[trigger] keys[i]) by {
            if i < keys.len() - 1 {
                assert(d[i] == keys[i]);
                let w = choose|w: int| 0 <= w < o.len() && o[w] == keys[i];
                if !o.contains(keys.last()) {
                    assert(o.push(keys.last())[w] == keys[i]);
                }
            }
        }
    }
}

/// The state invariant: every section is named in the order.
pub open spec fn ordered_all(st: MergeState) -> bool {
    forall|k: Seq<char>| has_key(st.sections, k) ==> st.order.contains(k)
}

proof fn lemma_merge_entries_order(st: MergeState, f: Seq<char>, e: Entries)
    requires
        distinct_keys(st.sections),
        ordered_all(st),
    ensures
        is_prefix(st.order, merge_entries(st, f, e).order),
        ordered_all(merge_entries(st, f, e)),
        distinct_keys(merge_entries(st, f, e).sections),
    decreases e.len(),
{
    if e.len() == 0 {
        assert(st.order.take(st.order.len() as int) =~= st.order);
    } else {
        let d = e.drop_last();
        lemma_merge_entries_order(st, f, d);
        let s1 = merge_entries(st, f, d);
        let (k, v) = e.last();
        lemma_insert(s1.sections, k, v);
        let s2 = merge_entry(s1, f, k, v);
        let pushed = !has_key(s1.sections, k) && !s1.order.contains(k);
        if pushed {
            lemma_prefix_push(st.order, s1.order, k);
            assert(s1.order.push(k).take(st.order.len() as int) =~= s1.order.take(st.order.len() as int));
            assert(s2.order[s1.order.len() as int] == k);
        }
        assert forall|k2: Seq<char>| has_key(s2.sections, k2) implies s2.order.contains(k2) by {
            if k2 == k {
                if has_key(s1.sections, k) {
                    assert(s1.order.contains(k));
                }
            } else {
                assert(has_key(s1.sections, k2));
                assert(s1.order.contains(k2));
                let w = choose|w: int| 0 <= w < s1.order.len() && s1.order[w] == k2;
                if pushed {
                    assert(s2.order[w] == k2);
                }
            }
        }
        assert(s1.order.take(st.order.len() as int) == st.order);
    }
}

proof fn lemma_merge_all_order(st: MergeState, adds: Seq<(Seq<char>, Entries)>)
    requires
        distinct_keys(st.sections),
        ordered_all(st),
    ensures
        is_prefix(st.order, merge_all(st, adds).order),
        ordered_all(merge_all(st, adds)),
        distinct_keys(merge_all(st, adds).sections),
    decreases adds.len(),
{
    if adds.len() == 0 {
        assert(st.order.take(st.order.len() as int) =~= st.order);
    } else {
        let d = adds.drop_last();
        lemma_merge_all_order(st, d);
        let s1 = merge_all(st, d);
        lemma_merge_entries_order(s1, adds.last().0, sorted_entries(adds.last().1));
        let s2 = merge_all(st, adds);
        assert(s2.order.take(s1.order.len() as int) == s1.order);
        assert(s2.order.take(st.order.len() as int) =~= s1.order.take(st.order.len() as int));
    }
}

/// The merged order starts with the base layer's declared sections, and every merged section
/// is named in it (so rendering writes every section).
pub proof fn law_order_keeps_base_and_covers_sections(base: Layer, additional: Seq<Layer>)
    requires
        distinct_keys(base.sections@),
    ensures
        is_prefix(base.meta.sections.deep_view(), spec_merge(base, additional).order),
        forall|k: Seq<char>| #[trigger] has_key(spec_merge(base, additional).sections, k)
            ==> spec_merge(base, additional).order.contains(k),
{
    let st = base_state(base);
    lemma_add_unique_prefix(base.meta.sections.deep_view(), sort_seqs(keys_of(base.sections@)));
    lemma_keys_no_dup(base.sections@);
    lemma_sort_seqs_elems(keys_of(base.sections@));
    assert forall|k: Seq<char>| has_key(st.sections, k) implies st.order.contains(k) by {
        lemma_key_index(st.sections, k);
        let i = key_index(st.sections, k);
        assert(keys_of(st.sections)[i] == k);
        assert(keys_of(base.sections@).contains(k));
        let ks = sort_seqs(keys_of(base.sections@));
        assert(ks.contains(k));
        let m = choose|m: int| 0 <= m < ks.len() && ks[m] == k;
        assert(add_unique(base.meta.sections.deep_view(), ks).contains(ks[m]));
    }
    lemma_merge_all_order(st, adds_view(additional));
    let s2 = spec_merge(base, additional);
    assert(s2.order.take(st.order.len() as int) == st.order);
    assert(s2.order.take(base.meta.sections.deep_view().len() as int) =~= st.order.take(
        base.meta.sections.deep_view().len() as int,
    ));
}

proof fn lemma_scan_j(ls: Seq<(Seq<char>, Seq<char>, Seq<Seq<char>>)>, i: int, c: int, j: int)
    requires
        0 <= j,
    ensures
        scan_j(ls, i, c, j) is Some <==> exists|j2: int| j <= j2 && conflict_at(ls, i, c, j2),
    decreases ls.len() - j,
{
    if j < ls.len() {
        lemma_scan_j(ls, i, c, j + 1);
        if exists|j2: int| j <= j2 && conflict_at(ls, i, c, j2) {
            let j2 = choose|j2: int| j <= j2 && conflict_at(ls, i, c, j2);
            if j2 > j {
                assert(j + 1 <= j2);
            }
        }
    }
}

proof fn lemma_scan_c(ls: Seq<(Seq<char>, Seq<char>, Seq<Seq<char>>)>, i: int, c: int)
    requires
        0 <= c,
    ensures
        scan_c(ls, i, c) is Some <==> exists|c2: int, j2: int| c <= c2 && conflict_at(ls, i, c2, j2),
    decreases (if 0 <= i < ls.len() { ls[i].2.len() } else { 0 }) - c,
{
    if 0 <= i < ls.len() && c < ls[i].2.len() {
        lemma_scan_c(ls, i, c + 1);
        lemma_scan_j(ls, i, c, 0);
        if exists|c2: int, j2: int| c <= c2 && conflict_at(ls, i, c2, j2) {
            let (c2, j2) = choose|c2: int, j2: int| c <= c2 && conflict_at(ls, i, c2, j2);
            if c2 > c {
                assert(c + 1 <= c2 && conflict_at(ls, i, c2, j2));
            } else {
                assert(0 <= j2 && conflict_at(ls, i, c, j2));
            }
        }
        if scan_j(ls, i, c, 0) is Some {
            let j2 = choose|j2: int| 0 <= j2 && conflict_at(ls, i, c, j2);
            assert(c <= c && conflict_at(ls, i, c, j2));
        }
        if scan_c(ls, i, c + 1) is Some {
            let (c2, j2) = choose|c2: int, j2: int| c + 1 <= c2 && conflict_at(ls, i, c2, j2);
            assert(c <= c2 && conflict_at(ls, i, c2, j2));
        }
    }
}

proof fn lemma_scan_i(ls: Seq<(Seq<char>, Seq<char>, Seq<Seq<char>>)>, i: int)
    requires
        0 <= i,
    ensures
        scan_i(ls, i) is Some <==> exists|i2: int, c2: int, j2: int| i <= i2 && conflict_at(ls, i2, c2, j2),
    decreases ls.len() - i,
{
    if i < ls.len() {
        lemma_scan_i(ls, i + 1);
        lemma_scan_c(ls, i, 0);
        if exists|i2: int, c2: int, j2: int| i <= i2 && conflict_at(ls, i2, c2, j2) {
            let (i2, c2, j2) = choose|i2: int, c2: int, j2: int| i <= i2 && conflict_at(ls, i2, c2, j2);
            if i2 > i {
                assert(i + 1 <= i2 && conflict_at(ls, i2, c2, j2));
            } else {
                assert(0 <= c2 && conflict_at(ls, i, c2, j2));
            }
        }
        if scan_c(ls, i, 0) is Some {
            let (c2, j2) = choose|c2: int, j2: int| 0 <= c2 && conflict_at(ls, i, c2, j2);
            assert(i <= i && conflict_at(ls, i, c2, j2));
        }
        if scan_i(ls, i + 1) is Some {
            let (i2, c2, j2) = choose|i2: int, c2: int, j2: int| i + 1 <= i2 && conflict_at(ls, i2, c2, j2);
            assert(i <= i2 && conflict_at(ls, i2, c2, j2));
        }
    } else {
        if exists|i2: int, c2: int, j2: int| i <= i2 && conflict_at(ls, i2, c2, j2) {
            let (i2, c2, j2) = choose|i2: int, c2: int, j2: int| i <= i2 && conflict_at(ls, i2, c2, j2);
            assert(false);
        }
    }
}

/// A merge is refused exactly when some layer (base or additional) declares a conflict with
/// another layer of the same merge, by its full name or its bare name.
pub proof fn law_conflicts_refused(base: Layer, additional: Seq<Layer>)
    ensures
        scan_i(all_infos(base, additional), 0) is Some <==> exists|i: int, c: int, j: int|
            conflict_at(all_infos(base, additional), i, c, j),
{
    let ls = all_infos(base, additional);
    lemma_scan_i(ls, 0);
    if exists|i: int, c: int, j: int| conflict_at(ls, i, c, j) {
        let (i, c, j) = choose|i: int, c: int, j: int| conflict_at(ls, i, c, j);
        assert(0 <= i && conflict_at(ls, i, c, j));
    }
}

/// Two merge states that agree on all that can be observed: the order, the warnings and
/// the text of every section.
pub open spec fn same_state(a: MergeState, b: MergeState) -> bool {
    &&& a.order == b.order
    &&& a.warnings == b.warnings
    &&& distinct_keys(a.sections)
    &&& distinct_keys(b.sections)
    &&& forall|k: Seq<char>| #[trigger] lookup(a.sections, k) == lookup(b.sections, k)
}

proof fn lemma_merge_entries_same(a: MergeState, b: MergeState, f: Seq<char>, e: Entries)
    requires
        same_state(a, b),
    ensures
        same_state(merge_entries(a, f, e), merge_entries(b, f, e)),
    decreases e.len(),
{
    if e.len() > 0 {
        lemma_merge_entries_same(a, b, f, e.drop_last());
        let s1 = merge_entries(a, f, e.drop_last());
        let t1 = merge_entries(b, f, e.drop_last());
        let (k, v) = e.last();
        lemma_key_index(s1.sections, k);
        lemma_key_index(t1.sections, k);
        assert(lookup(s1.sections, k) == lookup(t1.sections, k));
        assert(has_key(s1.sections, k) == has_key(t1.sections, k));
        lemma_insert(s1.sections, k, v);
        lemma_insert(t1.sections, k, v);
        let s2 = merge_entries(a, f, e);
        let t2 = merge_entries(b, f, e);
        assert forall|k2: Seq<char>| #[trigger] lookup(s2.sections, k2) == lookup(t2.sections, k2) by {
            if k2 != k {
                assert(lookup(s1.sections, k2) == lookup(t1.sections, k2));
            }
        }
    }
}

proof fn lemma_merge_all_same(a: MergeState, b: MergeState, adds1: Seq<(Seq<char>, Entries)>, adds2: Seq<(Seq<char>, Entries)>)
    requires
        same_state(a, b),
        adds1.len() == adds2.len(),
        forall|i: int| 0 <= i < adds1.len() ==> #[trigger] adds1[i].0 == adds2[i].0
            && sorted_entries(adds1[i].1) == sorted_entries(adds2[i].1),
    ensures
        same_state(merge_all(a, adds1), merge_all(b, adds2)),
    decreases adds1.len(),
{
    if adds1.len() > 0 {
        let d1 = adds1.drop_last();
        let d2 = adds2.drop_last();
        assert forall|i: int| 0 <= i < d1.len() implies #[trigger] d1[i].0 == d2[i].0
            && sorted_entries(d1[i].1) == sorted_entries(d2[i].1) by {
            assert(d1[i] == adds1[i]);
            assert(d2[i] == adds2[i]);
            assert(adds1[i].0 == adds2[i].0);
        }
        lemma_merge_all_same(a, b, d1, d2);
        assert(adds1[adds1.len() - 1].0 == adds2[adds2.len() - 1].0);
        lemma_merge_entries_same(merge_all(a, d1), merge_all(b, d2), adds1.last().0, sorted_entries(adds1.last().1));
    }
}

/// Maps with the same (name, text) pairs have the same names in sorted order.
proof fn lemma_sorted_keys_same(e1: Entries, e2: Entries)
    requires
        distinct_keys(e1),
        distinct_keys(e2),
        forall|k: Seq<char>| #[trigger] lookup(e1, k) == lookup(e2, k),
    ensures
        sort_seqs(keys_of(e1)) == sort_seqs(keys_of(e2)),
{
    lemma_keys_no_dup(e1);
    lemma_keys_no_dup(e2);
    lemma_sort_seqs_elems(keys_of(e1));
    lemma_sort_seqs_elems(keys_of(e2));
    lemma_sort_seqs_sorted(keys_of(e1));
    lemma_sort_seqs_sorted(keys_of(e2));
    assert forall|y: Seq<char>| sort_seqs(keys_of(e1)).contains(y) <==> sort_seqs(keys_of(e2)).contains(y) by {
        lemma_key_index(e1, y);
        lemma_key_index(e2, y);
        assert(lookup(e1, y) == lookup(e2, y));
        assert(keys_of(e1).contains(y) <==> keys_of(e2).contains(y));
    }
    lemma_sorted_unique(sort_seqs(keys_of(e1)), sort_seqs(keys_of(e2)));
}

proof fn lemma_sorted_entries_same(e1: Entries, e2: Entries)
    requires
        distinct_keys(e1),
        distinct_keys(e2),
        forall|k: Seq<char>| #[trigger] lookup(e1, k) == lookup(e2, k),
    ensures
        sorted_entries(e1) == sorted_entries(e2),
{
    lemma_sorted_keys_same(e1, e2);
    let ks = sort_seqs(keys_of(e1));
    assert forall|i: int| 0 <= i < ks.len() implies value_of(e1, ks[i]) == value_of(e2, ks[i]) by {
        assert(lookup(e1, ks[i]) == lookup(e2, ks[i]));
    }
    assert(sorted_entries(e1) =~= sorted_entries(e2));
}

proof fn lemma_ordered_parts_same(e1: Entries, e2: Entries, order: Seq<Seq<char>>)
    requires
        forall|k: Seq<char>| #[trigger] lookup(e1, k) == lookup(e2, k),
    ensures
        ordered_parts(e1, order) == ordered_parts(e2, order),
        nonempty_names(e1, order) == nonempty_names(e2, order),
    decreases order.len(),
{
    if order.len() > 0 {
        lemma_ordered_parts_same(e1, e2, order.drop_last());
        assert(lookup(e1, order.last()) == lookup(e2, order.last()));
    }
}

/// Sections with the same (name, text) pairs render to the same text.
proof fn lemma_to_text_same(e1: Entries, e2: Entries, order: Seq<Seq<char>>)
    requires
        distinct_keys(e1),
        distinct_keys(e2),
        forall|k: Seq<char>| #[trigger] lookup(e1, k) == lookup(e2, k),
    ensures
        spec_to_text(e1, order) == spec_to_text(e2, order),
{
    lemma_ordered_parts_same(e1, e2, order);
    let n = nonempty_names(e1, order);
    lemma_keys_no_dup(e1);
    lemma_keys_no_dup(e2);
    let r1 = keys_not_in(keys_of(e1), n);
    let r2 = keys_not_in(keys_of(e2), n);
    lemma_keys_not_in(keys_of(e1), n);
    lemma_keys_not_in(keys_of(e2), n);
    lemma_sort_seqs_elems(r1);
    lemma_sort_seqs_elems(r2);
    lemma_sort_seqs_sorted(r1);
    lemma_sort_seqs_sorted(r2);
    assert forall|y: Seq<char>| sort_seqs(r1).contains(y) <==> sort_seqs(r2).contains(y) by {
        lemma_key_index(e1, y);
        lemma_key_index(e2, y);
        assert(lookup(e1, y) == lookup(e2, y));
        assert(keys_of(e1).contains(y) <==> keys_of(e2).contains(y));
        assert(r1.contains(y) <==> r2.contains(y));
    }
    lemma_sorted_unique(sort_seqs(r1), sort_seqs(r2));
    lemma_ordered_parts_same(e1, e2, sort_seqs(r1));
}

/// Layers merge deterministically: the merge depends only on the layers' values (their
/// names, the base layer's declared section order, and which text each section name has),
/// not on where the (name, text) pairs stand in the layers' maps. Two such merges give the
/// same section order (so the same rendered text), the same warnings and the same text for
/// every section.
pub proof fn law_merge_deterministic(b1: Layer, a1: Seq<Layer>, b2: Layer, a2: Seq<Layer>)
    requires
        distinct_keys(b1.sections@),
        distinct_keys(b2.sections@),
        forall|i: int| 0 <= i < a1.len() ==> distinct_keys(#[trigger] a1[i].sections@),
        forall|i: int| 0 <= i < a2.len() ==> distinct_keys(#[trigger] a2[i].sections@),
        b1.meta.sections.deep_view() == b2.meta.sections.deep_view(),
        forall|k: Seq<char>| #[trigger] lookup(b1.sections@, k) == lookup(b2.sections@, k),
        a1.len() == a2.len(),
        forall|i: int| 0 <= i < a1.len() ==> #[trigger] spec_full_name(a1[i].meta.namespace@, a1[i].meta.name@)
            == spec_full_name(a2[i].meta.namespace@, a2[i].meta.name@),
        forall|i: int, k: Seq<char>| 0 <= i < a1.len() ==> #[trigger] lookup(a1[i].sections@, k) == lookup(a2[i].sections@, k),
    ensures
        spec_merge(b1, a1).order == spec_merge(b2, a2).order,
        spec_merge(b1, a1).warnings == spec_merge(b2, a2).warnings,
        forall|k: Seq<char>| #[trigger] lookup(spec_merge(b1, a1).sections, k) == lookup(spec_merge(b2, a2).sections, k),
        spec_to_text(spec_merge(b1, a1).sections, spec_merge(b1, a1).order)
            == spec_to_text(spec_merge(b2, a2).sections, spec_merge(b2, a2).order),
{
    lemma_sorted_keys_same(b1.sections@, b2.sections@);
    assert(same_state(base_state(b1), base_state(b2)));
    let adds1 = adds_view(a1);
    let adds2 = adds_view(a2);
    assert forall|i: int| 0 <= i < adds1.len() implies #[trigger] adds1[i].0 == adds2[i].0
        && sorted_entries(adds1[i].1) == sorted_entries(adds2[i].1) by {
        assert(spec_full_name(a1[i].meta.namespace@, a1[i].meta.name@) == spec_full_name(a2[i].meta.namespace@, a2[i].meta.name@));
        assert forall|k: Seq<char>| #[trigger] lookup(a1[i].sections@, k) == lookup(a2[i].sections@, k) by {
            assert(lookup(a1[i].sections@, k) == lookup(a2[i].sections@, k));
        }
        lemma_sorted_entries_same(a1[i].sections@, a2[i].sections@);
    }
    lemma_merge_all_same(base_state(b1), base_state(b2), adds1, adds2);
    lemma_to_text_same(spec_merge(b1, a1).sections, spec_merge(b2, a2).sections, spec_merge(b1, a1).order);
}

} // verus!
