//! Resolving a layer reference to a directory: search paths in order, flat or versioned
//! layouts, `latest`, major (`v1`) and exact versions ordered by semver.
use vstd::prelude::*;
use crate::config::{path_join, join_path, spec_hub_dir, global_layers_dir};
use crate::error::PromptHubError;
use crate::parser::{LayerRef, spec_display};
use crate::text::{
    chars_of, owned, concat2, concat3, seq_lt, str_lt, str_eq, has_prefix, starts_with_vec,
    lemma_seq_lt_irrefl, lemma_seq_lt_trans, lemma_seq_lt_total,
};

verus! {

// ───────────────────────── semver ─────────────────────────

/// Whether `semver::Version::parse` accepts the text.
pub uninterp spec fn semver_valid(s: Seq<char>) -> bool;

/// The sign (-1, 0, 1) of `Ord::cmp` between two parsed versions.
pub uninterp spec fn semver_order(a: Seq<char>, b: Seq<char>) -> int;

/// `semver::Version::parse(s).is_ok()`: a function of the text alone.
#[verifier::external_body]
fn semver_parses(s: &str) -> (b: bool)
    ensures
        b == semver_valid(s@),
{
    semver::Version::parse(s).is_ok()
}

/// `Ord::cmp` of `semver::Version` between two texts that parse, as -1, 0 or 1. `Version`'s
/// `Ord` is a total order (semver precedence, then build metadata): swapping the arguments
/// negates the result, and `<=` is transitive through either argument.
#[verifier::external_body]
fn semver_compare(a: &str, b: &str) -> (r: i8)
    requires
        semver_valid(a@),
        semver_valid(b@),
    ensures
        r == semver_order(a@, b@),
        -1 <= r <= 1,
        r == -semver_order(b@, a@),
        forall|x: Seq<char>| semver_valid(x) && semver_order(x, a@) <= 0 && r <= 0 ==> semver_order(x, b@) <= 0,
        forall|x: Seq<char>| semver_valid(x) && semver_order(x, b@) <= 0 && r >= 0 ==> semver_order(x, a@) <= 0,
{
    let va = semver::Version::parse(a).unwrap();
    let vb = semver::Version::parse(b).unwrap();
    match va.cmp(&vb) {
        std::cmp::Ordering::Less => -1,
        std::cmp::Ordering::Equal => 0,
        std::cmp::Ordering::Greater => 1,
    }
}

/// A leading `v` removed.
pub open spec fn strip_v(s: Seq<char>) -> Seq<char> {
    if s.len() > 0 && s[0] == 'v' {
        s.drop_first()
    } else {
        s
    }
}

/// The semver text of a version directory name: without a leading `v`, with `.0` appended
/// when only that makes it parse (`v1.9` is `1.9.0`).
pub open spec fn spec_semver_text(name: Seq<char>) -> Option<Seq<char>> {
    let s = strip_v(name);
    if semver_valid(s) {
        Some(s)
    } else if semver_valid(s + ".0"@) {
        Some(s + ".0"@)
    } else {
        None
    }
}

/// Parses a version string as semver, stripping a leading 'v' if present; two-part versions
/// like "v1.9" are treated as "1.9.0". Returns the text that parsed.
pub fn parse_semver(dir_name: &str) -> (r: Option<String>)
    ensures
        match spec_semver_text(dir_name@) {
            Some(t) => r matches Some(x) && x@ == t,
            None => r is None,
        },
{
    let v = chars_of(dir_name);
    let s = if v.len() > 0 && v[0] == 'v' {
        let t = crate::text::sub_vec(&v, 1, v.len());
        assert(t@ =~= v@.drop_first());
        crate::text::string_of(&t)
    } else {
        owned(dir_name)
    };
    if semver_parses(s.as_str()) {
        return Some(s);
    }
    let padded = concat2(s.as_str(), ".0");
    if semver_parses(padded.as_str()) {
        Some(padded)
    } else {
        None
    }
}

/// Lexicographic comparison sign.
pub open spec fn lex_order(a: Seq<char>, b: Seq<char>) -> int {
    if seq_lt(a, b) {
        -1
    } else if a == b {
        0
    } else {
        1
    }
}

/// How version directories are ordered: by semver when both names are versions, else
/// lexicographically.
pub open spec fn dir_order(a: Seq<char>, b: Seq<char>) -> int {
    match (spec_semver_text(a), spec_semver_text(b)) {
        (Some(x), Some(y)) => semver_order(x, y),
        _ => lex_order(a, b),
    }
}

/// Compares two version directory names using semver ordering; falls back to lexicographic
/// ordering when the names are not valid semver. Returns -1, 0 or 1.
pub fn cmp_version_dirs(a: &str, b: &str) -> (r: i8)
    ensures
        r == dir_order(a@, b@),
        spec_semver_text(a@) is Some && spec_semver_text(b@) is Some ==> {
            &&& r == -semver_order(spec_semver_text(b@)->0, spec_semver_text(a@)->0)
            &&& forall|x: Seq<char>| semver_valid(x) && semver_order(x, spec_semver_text(b@)->0) <= 0
                && r >= 0 ==> semver_order(x, spec_semver_text(a@)->0) <= 0
        },
{
    match (parse_semver(a), parse_semver(b)) {
        (Some(va), Some(vb)) => semver_compare(va.as_str(), vb.as_str()),
        _ => {
            if str_lt(a, b) {
                -1
            } else if str_eq(a, b) {
                0
            } else {
                1
            }
        },
    }
}

/// Version directories that are compared by name (the middle one is no version, and
/// neither is one of the outer two) are ordered transitively. (Where a version name and
/// two other names mix, the two orders can disagree, so no order holds across them.)
pub proof fn law_dir_order_transitive(a: Seq<char>, b: Seq<char>, c: Seq<char>)
    requires
        spec_semver_text(b) is None,
        spec_semver_text(a) is None || spec_semver_text(c) is None,
        dir_order(a, b) < 0,
        dir_order(b, c) < 0,
    ensures
        dir_order(a, c) < 0,
{
    if a == b {
    } else if !seq_lt(a, b) {
        lemma_seq_lt_irrefl(a);
    }
    assert(seq_lt(a, b));
    assert(seq_lt(b, c));
    lemma_seq_lt_trans(a, b, c);
}

/// Swapping two directory names that are compared by name (one of them is no version)
/// negates the result.
pub proof fn law_dir_order_by_name_antisymmetric(a: Seq<char>, b: Seq<char>)
    requires
        spec_semver_text(a) is None || spec_semver_text(b) is None,
    ensures
        dir_order(a, b) == -dir_order(b, a),
{
    lemma_seq_lt_total(a, b);
    if seq_lt(a, b) && seq_lt(b, a) {
        lemma_seq_lt_trans(a, b, a);
        lemma_seq_lt_irrefl(a);
    }
    if a == b {
        lemma_seq_lt_irrefl(a);
    }
}

/// `cmp_version_dirs` with its facts.
fn compare_dirs(a: &str, b: &str) -> (r: i8)
    ensures
        r == dir_order(a@, b@),
        spec_semver_text(a@) is Some && spec_semver_text(b@) is Some ==> {
            &&& r == -semver_order(spec_semver_text(b@)->0, spec_semver_text(a@)->0)
            &&& forall|x: Seq<char>| semver_valid(x) && semver_order(x, spec_semver_text(b@)->0) <= 0
                && r >= 0 ==> semver_order(x, spec_semver_text(a@)->0) <= 0
        },
{
    cmp_version_dirs(a, b)
}

// ───────────────────────── choosing a version directory ─────────────────────────

/// Whether directory `name` can serve the requested version: any for `latest` or empty;
/// for a major version `vN` (a `v` and no `.`), `vN` itself or `vN.`…; otherwise only the
/// exact name.
pub open spec fn version_matches(version: Seq<char>, name: Seq<char>) -> bool {
    if version == "latest"@ || version.len() == 0 {
        true
    } else if version[0] == 'v' && !version.contains('.') {
        name == version || has_prefix(name, version + "."@)
    } else {
        name == version
    }
}

/// Scanning names `i..` for the greatest matching one (a later name wins a tie).
pub open spec fn best_from(names: Seq<Seq<char>>, version: Seq<char>, i: int, best: Option<int>) -> Option<int>
    decreases names.len() - i,
{
    if i < 0 || i >= names.len() {
        best
    } else {
        let b2 = if version_matches(version, names[i]) {
            match best {
                None => Some(i),
                Some(b) => if dir_order(names[i], names[b]) >= 0 {
                    Some(i)
                } else {
                    best
                },
            }
        } else {
            best
        };
        best_from(names, version, i + 1, b2)
    }
}

/// The chosen version directory among `names`.
pub open spec fn spec_select_version(names: Seq<Seq<char>>, version: Seq<char>) -> Option<int> {
    best_from(names, version, 0, None)
}

/// The character views of names.
pub open spec fn names_view(v: Seq<String>) -> Seq<Seq<char>> {
    Seq::new(v.len(), |i: int| v[i]@)
}

/// Every name is a semver version.
pub open spec fn all_semver(names: Seq<Seq<char>>) -> bool {
    forall|i: int| 0 <= i < names.len() ==> (#[trigger] spec_semver_text(names[i])) is Some
}

/// No name is a semver version.
pub open spec fn no_semver(names: Seq<Seq<char>>) -> bool {
    forall|i: int| 0 <= i < names.len() ==> (#[trigger] spec_semver_text(names[i])) is None
}

fn version_matches_exec(version: &str, name: &str) -> (b: bool)
    ensures
        b == version_matches(version@, name@),
{
    let vv = chars_of(version);
    if str_eq(version, "latest") || vv.len() == 0 {
        return true;
    }
    let mut has_dot = false;
    let mut i: usize = 0;
    while i < vv.len()
        invariant
            i <= vv.len(),
            has_dot == (exists|j: int| 0 <= j < i && vv@[j] == '.'),
        decreases vv.len() - i,
    {
        if vv[i] == '.' {
            has_dot = true;
        }
        i = i + 1;
    }
    assert(has_dot == vv@.contains('.'));
    if vv[0] == 'v' && !has_dot {
        let prefix = concat2(version, ".");
        let pv = chars_of(prefix.as_str());
        let nv = chars_of(name);
        str_eq(name, version) || starts_with_vec(&nv, &pv)
    } else {
        str_eq(name, version)
    }
}

/// Chooses the version directory for `version` among directory `names`: the greatest
/// matching name under `cmp_version_dirs`, a later name winning a tie (`latest`/empty: all
/// names; `vN`: `vN` and `vN.*`; otherwise the exact name). When the names are all semver
/// versions, or none is, the choice is greater than or equal to every other matching name.
pub fn select_version(names: &Vec<String>, version: &str) -> (r: Option<usize>)
    ensures
        match spec_select_version(names_view(names@), version@) {
            Some(i) => r matches Some(k) && k as int == i,
            None => r is None,
        },
        r matches Some(k) ==> k < names@.len() && version_matches(version@, names@[k as int]@),
        r is None ==> forall|j: int| 0 <= j < names@.len() ==> !version_matches(version@, #[trigger] names@[j]@),
        r matches Some(k) ==> ((all_semver(names_view(names@)) || no_semver(names_view(names@))) ==>
            forall|j: int| 0 <= j < names@.len() && j != k && version_matches(version@, #[trigger] names@[j]@)
                ==> dir_order(names@[j]@, names@[k as int]@) <= 0),
{
    let ghost nv = names_view(names@);
    let mut best: Option<usize> = None;
    let mut i: usize = 0;
    while i < names.len()
        invariant
            i <= names.len(),
            nv == names_view(names@),
            best_from(nv, version@, 0, None) == best_from(
                nv,
                version@,
                i as int,
                match best {
                    Some(b) => Some(b as int),
                    None => None,
                },
            ),
            best matches Some(b) ==> b < i && version_matches(version@, nv[b as int]),
            best is None ==> forall|j: int| 0 <= j < i ==> !version_matches(version@, #[trigger] nv[j]),
            best matches Some(b) ==> ((all_semver(nv) || no_semver(nv)) ==> forall|j: int|
                0 <= j < i && j != b && version_matches(version@, #[trigger] nv[j]) ==> dir_order(nv[j], nv[b as int]) <= 0),
        decreases names.len() - i,
    {
        assert(nv[i as int] == names@[i as int]@);
        if version_matches_exec(version, names[i].as_str()) {
            match best {
                None => {
                    best = Some(i);
                },
                Some(b) => {
                    assert(nv[b as int] == names@[b as int]@);
                    let c = compare_dirs(names[i].as_str(), names[b].as_str());
                    if c >= 0 {
                        proof {
                            if all_semver(nv) || no_semver(nv) {
                                assert forall|j: int|
                                    0 <= j < i + 1 && j != i && version_matches(version@, #[trigger] nv[j])
                                        implies dir_order(nv[j], nv[i as int]) <= 0 by {
                                    lemma_uniform_le(nv, j, b as int, i as int);
                                }
                            }
                        }
                        best = Some(i);
                    }
                },
            }
        }
        i = i + 1;
    }
    proof {
        assert forall|j: int| 0 <= j < names@.len() implies nv[j] == names@[j]@ by {}
        if best is None {
            assert forall|j: int| 0 <= j < names@.len() implies !version_matches(version@, #[trigger] names@[j]@) by {
                assert(nv[j] == names@[j]@);
            }
        }
        if let Some(b) = best {
            if all_semver(nv) || no_semver(nv) {
                assert forall|j: int| 0 <= j < names@.len() && j != b && version_matches(version@, #[trigger] names@[j]@)
                    implies dir_order(names@[j]@, names@[b as int]@) <= 0 by {
                    assert(nv[j] == names@[j]@);
                    assert(nv[b as int] == names@[b as int]@);
                }
            }
        }
    }
    best
}

/// On names that are all semver or none semver: from `j <= b` (or `j == b`) and `i >= b`,
/// `j <= i`, given the facts that comparing `i` with `b` established.
proof fn lemma_uniform_le(nv: Seq<Seq<char>>, j: int, b: int, i: int)
    requires
        all_semver(nv) || no_semver(nv),
        0 <= j < nv.len(),
        0 <= b < nv.len(),
        0 <= i < nv.len(),
        j == b || dir_order(nv[j], nv[b]) <= 0,
        dir_order(nv[i], nv[b]) >= 0,
        spec_semver_text(nv[i]) is Some && spec_semver_text(nv[b]) is Some ==> {
            &&& dir_order(nv[i], nv[b]) == -semver_order(spec_semver_text(nv[b])->0, spec_semver_text(nv[i])->0)
            &&& forall|x: Seq<char>| semver_valid(x) && semver_order(x, spec_semver_text(nv[b])->0) <= 0
                && dir_order(nv[i], nv[b]) >= 0 ==> semver_order(x, spec_semver_text(nv[i])->0) <= 0
        },
    ensures
        dir_order(nv[j], nv[i]) <= 0,
{
    if all_semver(nv) {
        assert(spec_semver_text(nv[j]) is Some);
        assert(spec_semver_text(nv[b]) is Some);
        assert(spec_semver_text(nv[i]) is Some);
        let tj = spec_semver_text(nv[j])->0;
        assert(semver_valid(tj));
    } else {
        assert(spec_semver_text(nv[j]) is None);
        assert(spec_semver_text(nv[b]) is None);
        assert(spec_semver_text(nv[i]) is None);
        let (x, y, z) = (nv[j], nv[b], nv[i]);
        lemma_seq_lt_total(y, z);
        lemma_seq_lt_total(x, y);
        if seq_lt(x, y) && seq_lt(y, z) {
            lemma_seq_lt_trans(x, y, z);
        }
        if x == z {
            lemma_seq_lt_irrefl(x);
        }
        if seq_lt(z, x) && seq_lt(x, y) {
            lemma_seq_lt_trans(z, x, y);
        }
        if seq_lt(z, x) && x == y {
        }
    }
}

// ───────────────────────── resolving ─────────────────────────

/// What the filesystem shows of a layer directory under one search path.
#[derive(Debug, Clone)]
pub enum LayerDirProbe {
    /// The directory does not exist.
    Missing,
    /// The directory holds `layer.yaml` itself (flat layout).
    Flat,
    /// The names of its subdirectories, in the order the directory listing gave them.
    Versions(Vec<String>),
    /// The directory exists but could not be listed; the message says why.
    Unreadable(String),
}

/// Resolves a LayerRef to a Layer by searching local paths.
#[derive(Debug, Clone)]
pub struct LayerResolver {
    /// Extra search paths (e.g. project-local layers/)
    extra_paths: Vec<String>,
}

impl View for LayerResolver {
    type V = Seq<Seq<char>>;

    closed spec fn view(&self) -> Seq<Seq<char>> {
        self.extra_paths.deep_view()
    }
}

/// The error when no search path holds the layer.
pub open spec fn not_found_message(d: Seq<char>) -> Seq<char> {
    "Layer '"@ + d + "' not found. Run `prompthub pull "@ + d + "` to fetch it."@
}

/// The outcome of resolving: the directory to load, no such layer, or an unreadable
/// directory with the reason.
pub enum ResolveOutcome {
    Dir(Seq<char>),
    NotFound,
    Unreadable(Seq<char>, Seq<char>),
}

/// The outcome of resolving against probes `i..` of candidate directories `dirs`.
pub open spec fn resolve_from(
    dirs: Seq<Seq<char>>,
    probes: Seq<LayerDirProbe>,
    version: Seq<char>,
    i: int,
) -> ResolveOutcome
    decreases probes.len() - i,
{
    if i < 0 || i >= probes.len() || i >= dirs.len() {
        ResolveOutcome::NotFound
    } else {
        match probes[i] {
            LayerDirProbe::Missing => resolve_from(dirs, probes, version, i + 1),
            LayerDirProbe::Flat => ResolveOutcome::Dir(dirs[i]),
            LayerDirProbe::Versions(names) => match spec_select_version(names_view(names@), version) {
                Some(k) => ResolveOutcome::Dir(path_join(dirs[i], names@[k]@)),
                None => resolve_from(dirs, probes, version, i + 1),
            },
            LayerDirProbe::Unreadable(m) => ResolveOutcome::Unreadable(dirs[i], m@),
        }
    }
}

impl LayerResolver {
    /// A resolver searching `extra_paths` before the global layers directory.
    pub fn new(extra_paths: Vec<String>) -> (r: LayerResolver)
        ensures
            r@ == extra_paths.deep_view(),
    {
        LayerResolver { extra_paths }
    }

    /// The search paths: the extra paths, then the global layers directory.
    pub fn search_paths(&self) -> (r: Vec<String>)
        ensures
            r.deep_view().len() == self@.len() + 1,
            r.deep_view().take(self@.len() as int) == self@,
            exists|h: Option<Seq<char>>| r.deep_view().last() == path_join(spec_hub_dir(h), "layers"@),
    {
        let mut paths: Vec<String> = Vec::new();
        let mut i: usize = 0;
        while i < self.extra_paths.len()
            invariant
                i <= self.extra_paths.len(),
                paths.deep_view() == self@.take(i as int),
            decreases self.extra_paths.len() - i,
        {
            let ghost before = paths.deep_view();
            paths.push(self.extra_paths[i].clone());
            assert(paths.deep_view() =~= before.push(self.extra_paths@[i as int]@));
            i = i + 1;
            assert(self@.take(i as int) =~= before.push(self.extra_paths@[i - 1]@));
        }
        let g = global_layers_dir();
        let ghost before = paths.deep_view();
        paths.push(g);
        assert(paths.deep_view() =~= before.push(g@));
        assert(paths.deep_view().take(self@.len() as int) =~= before);
        assert(self@.take(self@.len() as int) =~= self@);
        paths
    }

    /// The directory to probe under each search path: the path joined with the reference's
    /// source (`base/code-critic`).
    pub fn candidate_dirs(&self, layer_ref: &LayerRef) -> (r: Vec<String>)
        ensures
            r.deep_view().len() == self@.len() + 1,
            forall|i: int| 0 <= i < self@.len() ==> #[trigger] r.deep_view()[i] == path_join(self@[i], layer_ref.source@),
    {
        let paths = self.search_paths();
        let mut r: Vec<String> = Vec::new();
        let mut i: usize = 0;
        while i < paths.len()
            invariant
                i <= paths.len(),
                paths.deep_view().len() == self@.len() + 1,
                paths.deep_view().take(self@.len() as int) == self@,
                r.deep_view().len() == i,
                forall|j: int| 0 <= j < i ==> #[trigger] r.deep_view()[j] == path_join(paths.deep_view()[j], layer_ref.source@),
            decreases paths.len() - i,
        {
            let ghost before = r.deep_view();
            r.push(join_path(paths[i].as_str(), layer_ref.source.as_str()));
            assert(r.deep_view() =~= before.push(path_join(paths@[i as int]@, layer_ref.source@)));
            i = i + 1;
        }
        assert forall|j: int| 0 <= j < self@.len() implies #[trigger] r.deep_view()[j] == path_join(self@[j], layer_ref.source@) by {
            assert(paths.deep_view().take(self@.len() as int)[j] == paths.deep_view()[j]);
        }
        r
    }

    /// Resolves a layer reference given what the filesystem shows under each candidate
    /// directory (`candidate_dirs`, probed in the same order): the first search path whose
    /// directory is flat, or has a subdirectory matching the version, gives the directory to
    /// load. An unreadable directory reached before that is an error; when none matches the
    /// layer is not found.
    pub fn resolve(&self, layer_ref: &LayerRef, dirs: &Vec<String>, probes: &Vec<LayerDirProbe>) -> (r: Result<String, PromptHubError>)
        ensures
            match resolve_from(dirs.deep_view(), probes@, layer_ref.version@, 0) {
                ResolveOutcome::Dir(d) => r matches Ok(x) && x@ == d,
                ResolveOutcome::NotFound => r matches Err(PromptHubError::LayerNotFound(m))
                    && m@ == not_found_message(spec_display(layer_ref@)),
                ResolveOutcome::Unreadable(d, m) => r matches Err(PromptHubError::Other(x))
                    && x@ == d + ": "@ + m,
            },
    {
        let ghost dv = dirs.deep_view();
        let mut i: usize = 0;
        while i < probes.len() && i < dirs.len()
            invariant
                i <= probes.len(),
                dv == dirs.deep_view(),
                resolve_from(dv, probes@, layer_ref.version@, 0)
                    == resolve_from(dv, probes@, layer_ref.version@, i as int),
            decreases probes.len() - i,
        {
            match &probes[i] {
                LayerDirProbe::Missing => {},
                LayerDirProbe::Flat => {
                    return Ok(dirs[i].clone());
                },
                LayerDirProbe::Versions(names) => {
                    match select_version(names, layer_ref.version.as_str()) {
                        Some(k) => {
                            return Ok(join_path(dirs[i].as_str(), names[k].as_str()));
                        },
                        None => {},
                    }
                },
                LayerDirProbe::Unreadable(m) => {
                    return Err(PromptHubError::Other(concat3(dirs[i].as_str(), ": ", m.as_str())));
                },
            }
            i = i + 1;
        }
        let d = layer_ref.display();
        let a = concat3("Layer '", d.as_str(), "' not found. Run `prompthub pull ");
        let b = concat3(a.as_str(), d.as_str(), "` to fetch it.");
        Err(PromptHubError::LayerNotFound(b))
    }
}

// ───────────────────────── listing versions ─────────────────────────

/// `x` inserted before the first name that orders after it (a stable insertion).
pub open spec fn insert_version(x: Seq<char>, s: Seq<Seq<char>>) -> Seq<Seq<char>>
    decreases s.len(),
{
    if s.len() == 0 {
        seq![x]
    } else if dir_order(x, s[0]) < 0 {
        seq![x] + s
    } else {
        seq![s[0]] + insert_version(x, s.drop_first())
    }
}

/// Version names in version order (a stable insertion sort by `dir_order`).
pub open spec fn sort_versions(s: Seq<Seq<char>>) -> Seq<Seq<char>>
    decreases s.len(),
{
    if s.len() == 0 {
        seq![]
    } else {
        insert_version(s.last(), sort_versions(s.drop_last()))
    }
}

proof fn lemma_insert_version_at(x: Seq<char>, s: Seq<Seq<char>>, k: int)
    requires
        0 <= k <= s.len(),
        forall|j: int| 0 <= j < k ==> dir_order(x, s[j]) >= 0,
        k < s.len() ==> dir_order(x, s[k]) < 0,
    ensures
        insert_version(x, s) == s.take(k) + seq![x] + s.skip(k),
    decreases s.len(),
{
    if s.len() == 0 {
        assert(s.take(k) + seq![x] + s.skip(k) =~= seq![x]);
    } else if k == 0 {
        assert(s.take(k) + seq![x] + s.skip(k) =~= seq![x] + s);
    } else {
        lemma_insert_version_at(x, s.drop_first(), k - 1);
        assert(seq![s[0]] + (s.drop_first().take(k - 1) + seq![x] + s.drop_first().skip(k - 1))
            =~= s.take(k) + seq![x] + s.skip(k));
    }
}

/// Sorts the cached versions of a layer for display: by semver when both names are
/// versions (`v1.10` after `v1.9`), by text otherwise, keeping the listing's order of names
/// that compare equal.
pub fn sort_version_names(names: &Vec<String>) -> (r: Vec<String>)
    ensures
        r.deep_view() == sort_versions(names.deep_view()),
{
    let ghost nv = names.deep_view();
    let mut r: Vec<String> = Vec::new();
    let mut i: usize = 0;
    assert(sort_versions(nv.take(0)) =~= Seq::<Seq<char>>::empty());
    while i < names.len()
        invariant
            i <= names@.len(),
            nv == names.deep_view(),
            r.deep_view() == sort_versions(nv.take(i as int)),
        decreases names@.len() - i,
    {
        let x = names[i].clone();
        proof {
            assert(nv.take(i + 1).drop_last() =~= nv.take(i as int));
            assert(nv.take(i + 1).last() == x@);
        }
        let ghost rv = r.deep_view();
        let mut k: usize = 0;
        while k < r.len() && compare_dirs(x.as_str(), r[k].as_str()) >= 0
            invariant
                k <= r@.len(),
                rv == r.deep_view(),
                forall|j: int| 0 <= j < k ==> dir_order(x@, rv[j]) >= 0,
            decreases r@.len() - k,
        {
            k = k + 1;
        }
        proof {
            lemma_insert_version_at(x@, rv, k as int);
        }
        r.insert(k, x);
        assert(r.deep_view() =~= rv.take(k as int) + seq![x@] + rv.skip(k as int));
        i = i + 1;
    }
    assert(nv.take(names@.len() as int) =~= nv);
    r
}

} // verus!
