//! Building a prompt once its layers are loaded: variable overrides given as `NAME=VALUE`,
//! merging, rendering, the layers used and the warnings of a build.
use vstd::prelude::*;
use crate::text::{chars_of, string_of, concat2, concat3, split_once, split_once_vec, lemma_split_once_concat};
use crate::strmap::{StrMap, Entries, entries_insert, lookup, distinct_keys, lemma_insert};
use crate::parser::{Promptfile, LayerRef, spec_display};
use crate::layer::{Layer, strs_view};
use crate::merger::{merge_layers, spec_merge, scan_i, all_infos, spec_to_text};
use crate::renderer::{render_variables, spec_render, with_includes, include_texts};
use crate::error::PromptHubError;

verus! {

/// The variables after applying `NAME=VALUE` overrides from index `i` on: each splits at
/// its first `=`; `Err(k)` names the first override without `=`.
pub open spec fn apply_overrides(e: Entries, ovs: Seq<Seq<char>>, i: int) -> Result<Entries, int>
    decreases ovs.len() - i,
{
    if i < 0 || i >= ovs.len() {
        Ok(e)
    } else {
        match split_once(ovs[i], '=') {
            Some((n, v)) => apply_overrides(entries_insert(e, n, v), ovs, i + 1),
            None => Err(i),
        }
    }
}

/// `Invalid <flag> format '<override>'. Use NAME=VALUE`.
pub open spec fn override_error(flag: Seq<char>, ov: Seq<char>) -> Seq<char> {
    "Invalid "@ + flag + " format '"@ + ov + "'. Use NAME=VALUE"@
}

/// Applies `NAME=VALUE` variable overrides, in order, to a Promptfile's variables; `flag`
/// names the option they came from in the error for an override without `=`.
pub fn apply_var_overrides(vars: &mut StrMap, overrides: &Vec<String>, flag: &str) -> (r: Result<(), PromptHubError>)
    ensures
        match apply_overrides(old(vars)@, overrides.deep_view(), 0) {
            Ok(e) => r is Ok && final(vars)@ == e,
            Err(k) => r matches Err(PromptHubError::Other(m)) && m@ == override_error(flag@, overrides.deep_view()[k]),
        },
{
    let ghost ov = overrides.deep_view();
    let mut i: usize = 0;
    while i < overrides.len()
        invariant
            i <= overrides.len(),
            ov == overrides.deep_view(),
            apply_overrides(old(vars)@, ov, 0) == apply_overrides(vars@, ov, i as int),
        decreases overrides.len() - i,
    {
        let v = chars_of(overrides[i].as_str());
        assert(ov[i as int] == overrides@[i as int]@);
        match split_once_vec(&v, '=') {
            Some((n, val)) => {
                vars.insert(string_of(&n), string_of(&val));
            },
            None => {
                let a = concat3("Invalid ", flag, " format '");
                let b = concat3(a.as_str(), overrides[i].as_str(), "'. Use NAME=VALUE");
                return Err(PromptHubError::Other(b));
            },
        }
        i = i + 1;
    }
    Ok(())
}

/// `Undefined variable: ${name}`.
pub open spec fn undefined_warning(name: Seq<char>) -> Seq<char> {
    "Undefined variable: ${"@ + name + "}"@
}

/// The warnings for undefined variables.
pub open spec fn undefined_warnings(names: Seq<Seq<char>>) -> Seq<Seq<char>> {
    Seq::new(names.len(), |i: int| undefined_warning(names[i]))
}

/// The references of a Promptfile's layers as shown: the base first, then the others.
pub open spec fn layer_names(from: LayerRef, layers: Seq<LayerRef>) -> Seq<Seq<char>> {
    seq![spec_display(from@)] + Seq::new(layers.len(), |i: int| spec_display(layers[i]@))
}

/// The layers of a Promptfile as shown, the base first.
pub fn used_layer_names(pf: &Promptfile) -> (r: Vec<String>)
    ensures
        strs_view(r@) == layer_names(pf.from, pf.layers@),
{
    let mut r: Vec<String> = Vec::new();
    r.push(pf.from.display());
    let mut i: usize = 0;
    while i < pf.layers.len()
        invariant
            i <= pf.layers@.len(),
            strs_view(r@) == layer_names(pf.from, pf.layers@.take(i as int)),
        decreases pf.layers@.len() - i,
    {
        let ghost before = strs_view(r@);
        r.push(pf.layers[i].display());
        assert(strs_view(r@) =~= before.push(spec_display(pf.layers@[i as int]@)));
        i = i + 1;
        assert(layer_names(pf.from, pf.layers@.take(i as int)) =~= before.push(spec_display(pf.layers@[(i - 1) as int]@)));
    }
    assert(pf.layers@.take(pf.layers@.len() as int) =~= pf.layers@);
    r
}

/// A built prompt: the text, the Promptfile's parameters, the layers used and the
/// warnings (merge warnings, then undefined variables).
#[derive(Debug)]
pub struct BuildResult {
    pub prompt: String,
    pub params: StrMap,
    pub layers: Vec<String>,
    pub warnings: Vec<String>,
}

/// The rendered text and undefined names of a build of resolved layers.
pub open spec fn build_render(pf: Promptfile, base: Layer, additional: Seq<Layer>, includes: Seq<(String, String)>) -> (Seq<char>, Seq<Seq<char>>) {
    let m = spec_merge(base, additional);
    spec_render(
        with_includes(spec_to_text(m.sections, m.order), include_texts(includes)),
        pf.vars@,
        match pf.task {
            Some(t) => Some(t@),
            None => None,
        },
    )
}

/// Builds a prompt from a parsed Promptfile, its resolved base and additional layers and
/// its included files as (path, content): merges the layers, renders the variables and the
/// task, and gathers the warnings. Fails when one layer declares a conflict with another.
pub fn build_prompt(pf: &Promptfile, base: &Layer, additional: &Vec<Layer>, includes: &Vec<(String, String)>) -> (r: Result<BuildResult, PromptHubError>)
    requires
        additional@.len() < usize::MAX,
    ensures
        match scan_i(all_infos(*base, additional@), 0) {
            Some((i, j)) => r matches Err(PromptHubError::ConflictError(a, b))
                && a@ == all_infos(*base, additional@)[i].0 && b@ == all_infos(*base, additional@)[j].0,
            None => r matches Ok(b)
                && b.prompt@ == build_render(*pf, *base, additional@, includes@).0
                && b.params@ == pf.params@
                && strs_view(b.layers@) == layer_names(pf.from, pf.layers@)
                && b.warnings.deep_view() == spec_merge(*base, additional@).warnings
                    + undefined_warnings(build_render(*pf, *base, additional@, includes@).1),
        },
{
    let merged = merge_layers(base, additional.as_slice(), pf.params.clone())?;
    let task: Option<&str> = match &pf.task {
        Some(t) => Some(t.as_str()),
        None => None,
    };
    let (text, undefined) = match render_variables(&merged, &pf.vars, task, includes.as_slice()) {
        Ok(x) => x,
        Err(e) => {
            return Err(e);
        },
    };
    let mut warnings: Vec<String> = Vec::new();
    let mut k: usize = 0;
    while k < merged.warnings.len()
        invariant
            k <= merged.warnings@.len(),
            warnings.deep_view() == merged.warnings.deep_view().take(k as int),
        decreases merged.warnings@.len() - k,
    {
        let ghost before = warnings.deep_view();
        warnings.push(merged.warnings[k].clone());
        assert(warnings.deep_view() =~= before.push(merged.warnings@[k as int]@));
        k = k + 1;
        assert(merged.warnings.deep_view().take(k as int) =~= before.push(merged.warnings@[(k - 1) as int]@));
    }
    assert(merged.warnings.deep_view().take(merged.warnings@.len() as int) =~= merged.warnings.deep_view());
    let ghost mw = warnings.deep_view();
    let ghost uv = undefined.deep_view();
    let mut i: usize = 0;
    proof {
        reveal_strlit("Undefined variable: ${");
        reveal_strlit("}");
    }
    while i < undefined.len()
        invariant
            i <= undefined@.len(),
            uv == undefined.deep_view(),
            warnings.deep_view() == mw + undefined_warnings(uv.take(i as int)),
        decreases undefined@.len() - i,
    {
        let w = concat3("Undefined variable: ${", undefined[i].as_str(), "}");
        let ghost before = warnings.deep_view();
        warnings.push(w);
        assert(warnings.deep_view() =~= before.push(w@));
        assert(uv[i as int] == undefined@[i as int]@);
        i = i + 1;
        assert(mw + undefined_warnings(uv.take(i as int)) =~= before.push(w@));
    }
    assert(uv.take(undefined@.len() as int) =~= uv);
    let layers = used_layer_names(pf);
    Ok(BuildResult { prompt: text, params: merged.params, layers, warnings })
}

/// An override `NAME=VALUE` wins over the Promptfile's variable of that name: the value
/// after the first `=` is what the name then holds, whatever it held before.
pub proof fn law_var_override_wins(vars: Entries, name: Seq<char>, value: Seq<char>)
    requires
        distinct_keys(vars),
        !name.contains('='),
    ensures
        apply_overrides(vars, seq![name + "="@ + value], 0) == Ok::<Entries, int>(entries_insert(vars, name, value)),
        lookup(entries_insert(vars, name, value), name) == Some(value),
{
    reveal_strlit("=");
    assert(name + "="@ + value =~= name + seq!['='] + value);
    lemma_split_once_concat(name, '=', value);
    lemma_insert(vars, name, value);
    let ovs = seq![name + "="@ + value];
    assert(apply_overrides(entries_insert(vars, name, value), ovs, 1) == Ok::<Entries, int>(entries_insert(vars, name, value)));
}

} // verus!
