//! Layers: metadata plus `[section]` blocks of prompt text.
use vstd::prelude::*;
use vstd::string::StringExecFns;
use crate::error::PromptHubError;
use crate::strmap::{StrMap, Entries, entries_insert, has_key, lookup, keys_of, distinct_keys, lemma_insert, lemma_key_index,
    key_index};
use crate::text::{
    chars_of, string_of, owned, concat2, concat3, sub_vec, trim, trim_end, trim_vec, trim_end_vec, push_all,
    lines, lines_vec, vviews, utf8_len, utf8_len_exceeds, lower, to_lowercase, char_alnum, is_alphanumeric, str_eq,
    sort_seqs, sort_strings, clean_line, joined_lines, lemma_lines_append, lemma_lines_one,
    lemma_lines_single, lemma_lines_newline_end, lemma_joined_lines_of, lemma_trim_pad,
    lemma_trim_start_shape, lemma_trim_end_shape, lemma_trim_end_take, trim_start, is_ws,
    lemma_sort_seqs_elems,
};

verus! {

/// Metadata stored in layer.yaml.
#[derive(Debug, Clone)]
pub struct LayerMeta {
    pub name: String,
    pub namespace: String,
    pub version: String,
    pub description: String,
    pub author: String,
    pub tags: Vec<String>,
    pub sections: Vec<String>,
    pub conflicts: Vec<String>,
    pub requires: Vec<String>,
    pub models: Vec<String>,
}

/// A fully loaded layer (metadata + content).
#[derive(Debug)]
pub struct Layer {
    pub meta: LayerMeta,
    /// Raw prompt.md content
    pub content: String,
    /// Parsed sections: section_name -> content
    pub sections: StrMap,
}

/// The character views of a sequence of strings.
pub open spec fn strs_view(s: Seq<String>) -> Seq<Seq<char>> {
    Seq::new(s.len(), |i: int| s[i]@)
}

/// `namespace/name`, or just `name` when the namespace is empty.
pub open spec fn spec_full_name(namespace: Seq<char>, name: Seq<char>) -> Seq<char> {
    if namespace.len() == 0 {
        name
    } else {
        namespace + "/"@ + name
    }
}

/// Maximum allowed length (in bytes) for a section header name.
pub const MAX_SECTION_NAME_LEN: usize = 64;

/// A section name: at most 64 bytes of alphanumerics, `-` and `_`.
pub open spec fn valid_section_name(inner: Seq<char>) -> bool {
    &&& utf8_len(inner) <= 64
    &&& forall|i: int| 0 <= i < inner.len() ==> char_alnum(#[trigger] inner[i]) || inner[i] == '-' || inner[i] == '_'
}

/// A section header line `[name]` (surrounding whitespace allowed), giving the name in lower case.
pub open spec fn spec_section_header(raw: Seq<char>) -> Option<Seq<char>> {
    let t = trim(raw);
    if t.len() > 2 && t[0] == '[' && t.last() == ']' && valid_section_name(t.subrange(1, t.len() - 1)) {
        Some(lower(t.subrange(1, t.len() - 1)))
    } else {
        None
    }
}

fn all_name_chars(inner: &Vec<char>) -> (b: bool)
    ensures
        b == (forall|i: int| 0 <= i < inner@.len() ==> char_alnum(#[trigger] inner@[i]) || inner@[i] == '-' || inner@[i] == '_'),
{
    let mut i: usize = 0;
    while i < inner.len()
        invariant
            i <= inner.len(),
            forall|j: int| 0 <= j < i ==> char_alnum(#[trigger] inner@[j]) || inner@[j] == '-' || inner@[j] == '_',
        decreases inner.len() - i,
    {
        let c = inner[i];
        if !(is_alphanumeric(c) || c == '-' || c == '_') {
            return false;
        }
        i = i + 1;
    }
    true
}

/// Checks if a line is a section header like `[section-name]`.
pub fn parse_section_header(line: &str) -> (r: Option<String>)
    ensures
        match spec_section_header(line@) {
            Some(n) => r matches Some(x) && x@ == n,
            None => r is None,
        },
{
    let t = chars_of(line);
    let t = trim_vec(&t);
    let n = t.len();
    if n > 2 && t[0] == '[' && t[n - 1] == ']' {
        let inner = sub_vec(&t, 1, n - 1);
        let inner_s = string_of(&inner);
        assert(inner@ == trim(line@).subrange(1, n - 1));
        if utf8_len_exceeds(&inner, MAX_SECTION_NAME_LEN) {
            assert(!valid_section_name(trim(line@).subrange(1, n - 1)));
            return None;
        }
        if !all_name_chars(&inner) {
            return None;
        }
        return Some(to_lowercase(inner_s.as_str()));
    }
    None
}

/// The parser state while reading prompt.md line by line.
pub struct SecState {
    pub sections: Entries,
    pub warnings: Seq<Seq<char>>,
    pub current: Option<Seq<char>>,
    pub buf: Seq<char>,
}

/// The warning for a section defined twice.
pub open spec fn dup_warning(name: Seq<char>) -> Seq<char> {
    "Duplicate section '["@ + name + "]' in prompt.md; later definition wins"@
}

/// Closing the open section: its trimmed text is stored (a later definition replaces an
/// earlier one, with a warning).
pub open spec fn close_section(st: SecState) -> SecState {
    match st.current {
        Some(n) => SecState {
            sections: entries_insert(st.sections, n, trim(st.buf)),
            warnings: if has_key(st.sections, n) {
                st.warnings.push(dup_warning(n))
            } else {
                st.warnings
            },
            current: None,
            buf: seq![],
        },
        None => st,
    }
}

/// One line: a header opens a new section; other lines are collected while a section is open.
pub open spec fn section_step(st: SecState, line: Seq<char>) -> SecState {
    match spec_section_header(line) {
        Some(name) => {
            let c = close_section(st);
            SecState { current: Some(name), ..c }
        },
        None => if st.current is Some {
            SecState { buf: st.buf + line + seq!['\n'], ..st }
        } else {
            st
        },
    }
}

/// Reading lines `i..` from state `st`.
pub open spec fn sections_from(ls: Seq<Seq<char>>, i: int, st: SecState) -> SecState
    decreases ls.len() - i,
{
    if i < 0 || i >= ls.len() {
        st
    } else {
        sections_from(ls, i + 1, section_step(st, ls[i]))
    }
}

/// The state before the first line.
pub open spec fn sec_init() -> SecState {
    SecState { sections: seq![], warnings: seq![], current: None, buf: seq![] }
}

/// The sections of a prompt text and the duplicate warnings.
pub open spec fn spec_parse_sections(content: Seq<char>) -> (Entries, Seq<Seq<char>>) {
    let st = close_section(sections_from(lines(content), 0, sec_init()));
    (st.sections, st.warnings)
}

fn dup_warning_exec(name: &str) -> (r: String)
    ensures
        r@ == dup_warning(name@),
{
    concat3("Duplicate section '[", name, "]' in prompt.md; later definition wins")
}

/// Parses `[section-name]` blocks from prompt.md content. Returns the sections and one
/// warning per section header that repeats an earlier one (the later definition wins).
pub fn parse_sections(content: &str) -> (r: (StrMap, Vec<String>))
    ensures
        r.0@ == spec_parse_sections(content@).0,
        r.1.deep_view() == spec_parse_sections(content@).1,
{
    let chars = chars_of(content);
    let ls = lines_vec(&chars);
    let ghost lsv = lines(content@);
    let mut sections = StrMap::new();
    let mut warnings: Vec<String> = Vec::new();
    let mut current: Option<String> = None;
    let mut buf: Vec<char> = Vec::new();
    let mut i: usize = 0;
    assert(warnings.deep_view() =~= Seq::<Seq<char>>::empty());
    while i < ls.len()
        invariant
            i <= ls.len(),
            vviews(ls@) == lsv,
            lsv == lines(content@),
            sections_from(lsv, 0, sec_init()) == sections_from(
                lsv,
                i as int,
                SecState {
                    sections: sections@,
                    warnings: warnings.deep_view(),
                    current: match current {
                        Some(c) => Some(c@),
                        None => None,
                    },
                    buf: buf@,
                },
            ),
        decreases ls.len() - i,
    {
        assert(vviews(ls@)[i as int] == ls@[i as int]@);
        let line = string_of(&ls[i]);
        match parse_section_header(line.as_str()) {
            Some(name) => {
                match current {
                    Some(n) => {
                        if sections.contains_key(n.as_str()) {
                            let ghost before = warnings.deep_view();
                            warnings.push(dup_warning_exec(n.as_str()));
                            assert(warnings.deep_view() =~= before.push(dup_warning(n@)));
                        }
                        let t = trim_vec(&buf);
                        sections.insert(n, string_of(&t));
                        buf = Vec::new();
                        assert(buf@ =~= Seq::<char>::empty());
                    },
                    None => {},
                }
                current = Some(name);
            },
            None => {
                if current.is_some() {
                    let ghost before = buf@;
                    push_all(&mut buf, &ls[i]);
                    buf.push('\n');
                    assert(buf@ =~= before + ls[i as int]@ + seq!['\n']);
                }
            },
        }
        i = i + 1;
    }
    match current {
        Some(n) => {
            if sections.contains_key(n.as_str()) {
                let ghost before = warnings.deep_view();
                warnings.push(dup_warning_exec(n.as_str()));
                assert(warnings.deep_view() =~= before.push(dup_warning(n@)));
            }
            let t = trim_vec(&buf);
            sections.insert(n, string_of(&t));
        },
        None => {},
    }
    (sections, warnings)
}

// ───────────────────────── reassembly ─────────────────────────

/// One block of prompt.md: `[name]`, the text, and a blank line.
pub open spec fn block(name: Seq<char>, c: Seq<char>) -> Seq<char> {
    "["@ + name + "]\n"@ + c + "\n\n"@
}

/// The blocks of the sections named in `order`, in that order (names without a section
/// are skipped; a name given twice is written twice).
pub open spec fn order_blocks(e: Entries, order: Seq<Seq<char>>) -> Seq<char>
    decreases order.len(),
{
    if order.len() == 0 {
        seq![]
    } else {
        order_blocks(e, order.drop_last()) + match lookup(e, order.last()) {
            Some(c) => block(order.last(), c),
            None => seq![],
        }
    }
}

/// The keys of `e` that `order` does not name, in map order.
pub open spec fn keys_not_in(keys: Seq<Seq<char>>, order: Seq<Seq<char>>) -> Seq<Seq<char>>
    decreases keys.len(),
{
    if keys.len() == 0 {
        seq![]
    } else if order.contains(keys.last()) {
        keys_not_in(keys.drop_last(), order)
    } else {
        keys_not_in(keys.drop_last(), order).push(keys.last())
    }
}

/// Reassembled markdown: ordered sections first, then the others sorted by name; trailing
/// whitespace removed.
pub open spec fn spec_sections_to_content(e: Entries, order: Seq<Seq<char>>) -> Seq<char> {
    trim_end(order_blocks(e, order) + order_blocks(e, sort_seqs(keys_not_in(keys_of(e), order))))
}

/// Whether a list of strings contains `x`.
pub fn contains_string(v: &[String], x: &str) -> (b: bool)
    ensures
        b == strs_view(v@).contains(x@),
{
    let mut i: usize = 0;
    while i < v.len()
        invariant
            i <= v.len(),
            forall|j: int| 0 <= j < i ==> v@[j]@ != x@,
        decreases v.len() - i,
    {
        if str_eq(v[i].as_str(), x) {
            assert(strs_view(v@)[i as int] == x@);
            return true;
        }
        i = i + 1;
    }
    assert forall|j: int| 0 <= j < strs_view(v@).len() implies strs_view(v@)[j] != x@ by {
        assert(strs_view(v@)[j] == v@[j]@);
    }
    false
}

/// The keys of `sections` that `order` does not name.
pub fn remaining_keys(sections: &StrMap, order: &[String]) -> (r: Vec<String>)
    ensures
        r.deep_view() == keys_not_in(keys_of(sections@), strs_view(order@)),
{
    let keys = sections.keys();
    let ghost kv = keys.deep_view();
    let mut r: Vec<String> = Vec::new();
    let mut i: usize = 0;
    while i < keys.len()
        invariant
            i <= keys.len(),
            kv == keys.deep_view(),
            kv == keys_of(sections@),
            r.deep_view() == keys_not_in(kv.take(i as int), strs_view(order@)),
        decreases keys.len() - i,
    {
        proof {
            assert(kv.take(i + 1).drop_last() =~= kv.take(i as int));
            assert(kv.take(i + 1).last() == keys[i as int]@);
        }
        if !contains_string(order, keys[i].as_str()) {
            let ghost before = r.deep_view();
            r.push(keys[i].clone());
            assert(r.deep_view() =~= before.push(keys[i as int]@));
        }
        i = i + 1;
    }
    assert(kv.take(keys.len() as int) =~= kv);
    r
}

/// Appends the blocks for `names` to `out`.
fn push_blocks(out: &mut String, sections: &StrMap, names: &[String])
    ensures
        final(out)@ == old(out)@ + order_blocks(sections@, strs_view(names@)),
{
    let mut i: usize = 0;
    assert(strs_view(names@).take(0) =~= Seq::<Seq<char>>::empty());
    assert(old(out)@ + Seq::<char>::empty() =~= old(out)@);
    while i < names.len()
        invariant
            i <= names.len(),
            out@ == old(out)@ + order_blocks(sections@, strs_view(names@).take(i as int)),
        decreases names.len() - i,
    {
        let ghost prev = out@;
        proof {
            assert(strs_view(names@).take(i + 1).drop_last() =~= strs_view(names@).take(i as int));
            assert(strs_view(names@).take(i + 1).last() == names@[i as int]@);
        }
        match sections.get(names[i].as_str()) {
            Some(c) => {
                out.append("[");
                out.append(names[i].as_str());
                out.append("]\n");
                out.append(c.as_str());
                out.append("\n\n");
                assert(out@ =~= prev + block(names@[i as int]@, c@));
            },
            None => {
                assert(out@ =~= prev + Seq::<char>::empty());
            },
        }
        i = i + 1;
    }
    assert(strs_view(names@).take(names.len() as int) =~= strs_view(names@));
}

/// Reassembles sections back to markdown, maintaining a stable section order: the named
/// sections first, then the remaining ones sorted by name.
pub fn sections_to_content(sections: &StrMap, order: &[String]) -> (r: String)
    ensures
        r@ == spec_sections_to_content(sections@, strs_view(order@)),
{
    let mut result = String::new();
    push_blocks(&mut result, sections, order);
    let remaining = remaining_keys(sections, order);
    let sorted = sort_strings(&remaining);
    assert(strs_view(sorted@) =~= sorted.deep_view());
    push_blocks(&mut result, sections, sorted.as_slice());
    let ghost whole = result@;
    assert(whole =~= order_blocks(sections@, strs_view(order@)) + order_blocks(sections@, sort_seqs(keys_not_in(keys_of(sections@), strs_view(order@)))));
    let v = chars_of(result.as_str());
    let t = trim_end_vec(&v);
    string_of(&t)
}

// ───────────────────────── layers ─────────────────────────

impl Layer {
    /// Full identifier: namespace/name.
    pub fn full_name(&self) -> (r: String)
        ensures
            r@ == spec_full_name(self.meta.namespace@, self.meta.name@),
    {
        if self.meta.namespace.as_str().is_empty() {
            self.meta.name.clone()
        } else {
            concat3(self.meta.namespace.as_str(), "/", self.meta.name.as_str())
        }
    }

    /// The display label: `full_name (version)`.
    pub fn display(&self) -> (r: String)
        ensures
            r@ == spec_full_name(self.meta.namespace@, self.meta.name@) + " ("@ + self.meta.version@ + ")"@,
    {
        let f = self.full_name();
        let a = concat3(f.as_str(), " (", self.meta.version.as_str());
        concat2(a.as_str(), ")")
    }

    /// Assembles a layer from its metadata and prompt text, as read from `yaml_path`: the
    /// name and the version are required; the sections are parsed from the text, and the
    /// duplicate-section warnings are returned beside the layer.
    pub fn from_parts(meta: LayerMeta, content: String, yaml_path: &str) -> (r: Result<(Layer, Vec<String>), PromptHubError>)
        ensures
            meta.name@.len() == 0 ==> (r matches Err(PromptHubError::ValidationError(m))
                && m@ == yaml_path@ + ": 'name' field is required"@),
            meta.name@.len() > 0 && meta.version@.len() == 0 ==> (r matches Err(PromptHubError::ValidationError(m))
                && m@ == yaml_path@ + ": 'version' field is required"@),
            meta.name@.len() > 0 && meta.version@.len() > 0 ==> (r matches Ok((l, w)) && l.meta == meta
                && l.content == content
                && l.sections@ == spec_parse_sections(content@).0
                && w.deep_view() == spec_parse_sections(content@).1),
    {
        if meta.name.as_str().is_empty() {
            return Err(PromptHubError::ValidationError(concat2(yaml_path, ": 'name' field is required")));
        }
        if meta.version.as_str().is_empty() {
            return Err(PromptHubError::ValidationError(concat2(yaml_path, ": 'version' field is required")));
        }
        let (sections, warnings) = parse_sections(content.as_str());
        Ok((Layer { meta, content, sections }, warnings))
    }
}

// ───────────────────────── writing sections and reading them back ─────────────────────────

/// A section that survives being written and read back: a lower-case name on one line that
/// reads as a section header, and a trimmed text without `\r` none of whose lines reads as
/// a header.
pub open spec fn round_trip_section(k: Seq<char>, v: Seq<char>) -> bool {
    &&& k.len() > 0
    &&& valid_section_name(k)
    &&& lower(k) == k
    &&& !k.contains('\n')
    &&& trim(v) == v
    &&& !v.contains('\r')
    &&& forall|j: int| 0 <= j < lines(v).len() ==> spec_section_header(#[trigger] lines(v)[j]) is None
}

/// The blocks of (name, text) pairs, in order.
pub open spec fn pairs_blocks(p: Seq<(Seq<char>, Seq<char>)>) -> Seq<char>
    decreases p.len(),
{
    if p.len() == 0 {
        seq![]
    } else {
        pairs_blocks(p.drop_last()) + block(p.last().0, p.last().1)
    }
}

/// The (name, text) pairs that `order_blocks` writes: the names of `order` that have a
/// section, with their texts.
pub open spec fn written_pairs(e: Entries, order: Seq<Seq<char>>) -> Seq<(Seq<char>, Seq<char>)>
    decreases order.len(),
{
    if order.len() == 0 {
        seq![]
    } else {
        written_pairs(e, order.drop_last()) + match lookup(e, order.last()) {
            Some(c) => seq![(order.last(), c)],
            None => seq![],
        }
    }
}

/// The sections that inserting the pairs in order gives.
pub open spec fn inserted(p: Seq<(Seq<char>, Seq<char>)>) -> Entries
    decreases p.len(),
{
    if p.len() == 0 {
        seq![]
    } else {
        entries_insert(inserted(p.drop_last()), p.last().0, p.last().1)
    }
}

/// The names of the pairs.
pub open spec fn pair_names(p: Seq<(Seq<char>, Seq<char>)>) -> Seq<Seq<char>> {
    Seq::new(p.len(), |i: int| p[i].0)
}

proof fn lemma_sections_shift(a: Seq<Seq<char>>, b: Seq<Seq<char>>, j: int, st: SecState)
    requires
        0 <= j <= b.len(),
    ensures
        sections_from(a + b, a.len() + j, st) == sections_from(b, j, st),
    decreases b.len() - j,
{
    if j < b.len() {
        assert((a + b)[a.len() + j] == b[j]);
        lemma_sections_shift(a, b, j + 1, section_step(st, b[j]));
    }
}

proof fn lemma_sections_concat(a: Seq<Seq<char>>, b: Seq<Seq<char>>, i: int, st: SecState)
    requires
        0 <= i <= a.len(),
    ensures
        sections_from(a + b, i, st) == sections_from(b, 0, sections_from(a, i, st)),
    decreases a.len() - i,
{
    if i < a.len() {
        assert((a + b)[i] == a[i]);
        lemma_sections_concat(a, b, i + 1, section_step(st, a[i]));
    } else {
        lemma_sections_shift(a, b, 0, st);
    }
}

proof fn lemma_sections_body(ls: Seq<Seq<char>>, st: SecState)
    requires
        st.current is Some,
        forall|j: int| 0 <= j < ls.len() ==> spec_section_header(#[trigger] ls[j]) is None,
    ensures
        sections_from(ls, 0, st) == (SecState { buf: st.buf + joined_lines(ls), ..st }),
    decreases ls.len(),
{
    if ls.len() == 0 {
        assert(st.buf + joined_lines(ls) =~= st.buf);
    } else {
        let d = ls.drop_last();
        let x = ls.last();
        assert forall|j: int| 0 <= j < d.len() implies spec_section_header(#[trigger] d[j]) is None by {
            assert(d[j] == ls[j]);
        }
        lemma_sections_body(d, st);
        assert(d + seq![x] =~= ls);
        lemma_sections_concat(d, seq![x], 0, st);
        assert(spec_section_header(ls[ls.len() - 1]) is None);
        let st2 = sections_from(d, 0, st);
        assert(sections_from(seq![x], 1, section_step(st2, x)) == section_step(st2, x));
        assert(st.buf + joined_lines(ls) =~= st.buf + joined_lines(d) + x + seq!['\n']);
    }
}

proof fn lemma_header_line(k: Seq<char>)
    requires
        k.len() > 0,
        valid_section_name(k),
        lower(k) == k,
    ensures
        spec_section_header("["@ + k + "]"@) == Some(k),
{
    reveal_strlit("[");
    reveal_strlit("]");
    let h = "["@ + k + "]"@;
    assert(!is_ws(h[0]));
    assert(!is_ws(h.last()));
    assert(trim_start(h) == h);
    assert(trim_end(h) == h);
    assert(h.subrange(1, h.len() - 1) =~= k);
}

/// The state after reading the blocks of `p` (before the last one is closed).
pub open spec fn open_state(p: Seq<(Seq<char>, Seq<char>)>) -> SecState {
    SecState {
        sections: inserted(p.drop_last()),
        warnings: seq![],
        current: Some(p.last().0),
        buf: p.last().1 + "\n\n"@,
    }
}

proof fn lemma_value_lines(v: Seq<char>)
    requires
        trim(v) == v,
        !v.contains('\r'),
        forall|j: int| 0 <= j < lines(v).len() ==> spec_section_header(#[trigger] lines(v)[j]) is None,
    ensures
        forall|j: int| 0 <= j < lines(v + "\n\n"@).len() ==> spec_section_header(#[trigger] lines(v + "\n\n"@)[j]) is None,
        joined_lines(lines(v + "\n\n"@)) == v + "\n\n"@,
        joined_lines(lines(v)) == (if v.len() == 0 { v } else { v + "\n"@ }),
{
    reveal_strlit("\n\n");
    reveal_strlit("\n");
    let nl: Seq<char> = seq!['\n'];
    let t = v + "\n\n"@;
    assert(!t.contains('\r')) by {
        if t.contains('\r') {
            let j = choose|j: int| 0 <= j < t.len() && t[j] == '\r';
            if j < v.len() {
                assert(v[j] == '\r');
            }
        }
    }
    lemma_joined_lines_of(t);
    lemma_lines_one(Seq::<char>::empty());
    assert(Seq::<char>::empty() + nl =~= nl);
    assert(spec_section_header(Seq::<char>::empty()) is None) by {
        assert(trim_start(Seq::<char>::empty()) =~= Seq::<char>::empty());
        assert(trim_end(Seq::<char>::empty()) =~= Seq::<char>::empty());
    }
    if v.len() == 0 {
        assert(t =~= nl + nl);
        lemma_lines_append(nl, nl);
        assert(lines(v) =~= Seq::<Seq<char>>::empty());
        assert(joined_lines(lines(v)) =~= v);
    } else {
        let k1 = lemma_trim_start_shape(v);
        let k2 = lemma_trim_end_shape(trim_start(v));
        assert(trim_start(v) =~= v);
        assert(!is_ws(v.last()));
        lemma_lines_newline_end(v);
        assert(t =~= (v + nl) + nl);
        lemma_lines_append(v + nl, nl);
        assert(lines(t) =~= lines(v) + seq![Seq::<char>::empty()]);
        assert forall|j: int| 0 <= j < lines(t).len() implies spec_section_header(#[trigger] lines(t)[j]) is None by {
            if j < lines(v).len() {
                assert(lines(t)[j] == lines(v)[j]);
            } else {
                assert(lines(t)[j] == Seq::<char>::empty());
            }
        }
        assert(!(v + nl).contains('\r')) by {
            if (v + nl).contains('\r') {
                let j = choose|j: int| 0 <= j < (v + nl).len() && (v + nl)[j] == '\r';
                if j < v.len() {
                    assert(v[j] == '\r');
                }
            }
        }
        lemma_joined_lines_of(v + nl);
        assert("\n"@ =~= nl);
    }
}

proof fn lemma_inserted(p: Seq<(Seq<char>, Seq<char>)>)
    ensures
        distinct_keys(inserted(p)),
        forall|k: Seq<char>| has_key(inserted(p), k) <==> pair_names(p).contains(k),
    decreases p.len(),
{
    if p.len() == 0 {
        assert forall|k: Seq<char>| has_key(inserted(p), k) <==> pair_names(p).contains(k) by {
            lemma_key_index(inserted(p), k);
        }
    } else {
        let q = p.drop_last();
        lemma_inserted(q);
        lemma_insert(inserted(q), p.last().0, p.last().1);
        assert forall|k: Seq<char>| has_key(inserted(p), k) <==> pair_names(p).contains(k) by {
            if pair_names(p).contains(k) {
                let j = choose|j: int| 0 <= j < pair_names(p).len() && pair_names(p)[j] == k;
                if j < q.len() {
                    assert(pair_names(q)[j] == k);
                }
            }
            if pair_names(q).contains(k) {
                let j = choose|j: int| 0 <= j < pair_names(q).len() && pair_names(q)[j] == k;
                assert(pair_names(p)[j] == k);
            }
            if k == p.last().0 {
                assert(pair_names(p)[p.len() - 1] == k);
            }
        }
    }
}

proof fn lemma_pairs_blocks_end(p: Seq<(Seq<char>, Seq<char>)>)
    ensures
        pairs_blocks(p).len() == 0 || pairs_blocks(p).last() == '\n',
{
    if p.len() > 0 {
        reveal_strlit("\n\n");
        let b = block(p.last().0, p.last().1);
        assert(pairs_blocks(p).last() == b.last());
    }
}

proof fn lemma_no_dup_prefix(p: Seq<(Seq<char>, Seq<char>)>)
    requires
        p.len() > 0,
        pair_names(p).no_duplicates(),
    ensures
        pair_names(p.drop_last()).no_duplicates(),
        !pair_names(p.drop_last()).contains(p.last().0),
{
    let q = p.drop_last();
    assert forall|a: int, b: int| 0 <= a < pair_names(q).len() && 0 <= b < pair_names(q).len() && a != b
        implies pair_names(q)[a] != pair_names(q)[b] by {
        assert(pair_names(q)[a] == pair_names(p)[a]);
        assert(pair_names(q)[b] == pair_names(p)[b]);
    }
    if pair_names(q).contains(p.last().0) {
        let j = choose|j: int| 0 <= j < pair_names(q).len() && pair_names(q)[j] == p.last().0;
        assert(pair_names(p)[j] == pair_names(p)[p.len() - 1]);
    }
}

/// The state after the header of the last block of `p`, given the blocks before it read.
proof fn lemma_header_step(p: Seq<(Seq<char>, Seq<char>)>, st: SecState)
    requires
        p.len() > 0,
        pair_names(p).no_duplicates(),
        forall|i: int| 0 <= i < p.len() ==> round_trip_section(#[trigger] p[i].0, p[i].1),
        p.len() == 1 ==> st == sec_init(),
        p.len() > 1 ==> st == open_state(p.drop_last()),
    ensures
        section_step(st, "["@ + p.last().0 + "]"@) == (SecState {
            sections: inserted(p.drop_last()),
            warnings: seq![],
            current: Some(p.last().0),
            buf: seq![],
        }),
{
    let q = p.drop_last();
    assert(round_trip_section(p[p.len() - 1].0, p[p.len() - 1].1));
    lemma_header_line(p.last().0);
    if p.len() > 1 {
        lemma_no_dup_prefix(p);
        lemma_no_dup_prefix(q);
        lemma_inserted(q.drop_last());
        assert(round_trip_section(p[p.len() - 2].0, p[p.len() - 2].1));
        assert(q.last() == p[p.len() - 2]);
        reveal_strlit("\n\n");
        assert forall|j: int| 0 <= j < "\n\n"@.len() implies is_ws(#[trigger] "\n\n"@[j]) by {}
        lemma_trim_pad(q.last().1, "\n\n"@);
        assert(q.drop_last() + seq![q.last()] =~= q);
        assert(!has_key(inserted(q.drop_last()), q.last().0));
    } else {
        assert(q =~= Seq::<(Seq<char>, Seq<char>)>::empty());
        assert(inserted(q) =~= Seq::<(Seq<char>, Seq<char>)>::empty());
    }
}

proof fn lemma_blocks_parse(p: Seq<(Seq<char>, Seq<char>)>)
    requires
        p.len() > 0,
        pair_names(p).no_duplicates(),
        forall|i: int| 0 <= i < p.len() ==> round_trip_section(#[trigger] p[i].0, p[i].1),
    ensures
        sections_from(lines(pairs_blocks(p)), 0, sec_init()) == open_state(p),
    decreases p.len(),
{
    reveal_strlit("[");
    reveal_strlit("]");
    reveal_strlit("]\n");
    reveal_strlit("\n\n");
    let q = p.drop_last();
    let k = p.last().0;
    let v = p.last().1;
    assert(round_trip_section(p[p.len() - 1].0, p[p.len() - 1].1));
    let nl: Seq<char> = seq!['\n'];
    let h = "["@ + k + "]"@;
    let a = pairs_blocks(q);
    let st_a = sections_from(lines(a), 0, sec_init());
    if q.len() > 0 {
        lemma_no_dup_prefix(p);
        assert forall|i: int| 0 <= i < q.len() implies round_trip_section(#[trigger] q[i].0, q[i].1) by {
            assert(q[i] == p[i]);
        }
        lemma_blocks_parse(q);
    } else {
        assert(a =~= Seq::<char>::empty());
        assert(lines(a) =~= Seq::<Seq<char>>::empty());
    }
    lemma_pairs_blocks_end(q);
    assert(block(k, v) =~= (h + nl) + (v + "\n\n"@));
    lemma_lines_append(a, block(k, v));
    lemma_lines_append(h + nl, v + "\n\n"@);
    assert(clean_line(h)) by {
        assert(!h.contains('\n')) by {
            if h.contains('\n') {
                let j = choose|j: int| 0 <= j < h.len() && h[j] == '\n';
                assert(k[j - 1] == '\n');
            }
        }
        assert(h.last() == ']');
    }
    lemma_lines_one(h);
    let l = lines(v + "\n\n"@);
    assert(lines(pairs_blocks(p)) =~= lines(a) + (seq![h] + l));
    lemma_sections_concat(lines(a), seq![h] + l, 0, sec_init());
    lemma_sections_concat(seq![h], l, 0, st_a);
    assert(sections_from(seq![h], 1, section_step(st_a, h)) == section_step(st_a, h));
    lemma_header_step(p, st_a);
    lemma_value_lines(v);
    let st_h = section_step(st_a, h);
    lemma_sections_body(l, st_h);
    assert(Seq::<char>::empty() + joined_lines(l) =~= v + "\n\n"@);
}

/// Writing sections as blocks (without trailing whitespace) and reading them back gives
/// the sections, each once, and no warning.
proof fn lemma_blocks_round_trip(p: Seq<(Seq<char>, Seq<char>)>)
    requires
        p.len() > 0,
        pair_names(p).no_duplicates(),
        forall|i: int| 0 <= i < p.len() ==> round_trip_section(#[trigger] p[i].0, p[i].1),
    ensures
        spec_parse_sections(trim_end(pairs_blocks(p))) == (inserted(p), Seq::<Seq<char>>::empty()),
{
    reveal_strlit("[");
    reveal_strlit("]");
    reveal_strlit("]\n");
    reveal_strlit("\n\n");
    reveal_strlit("\n");
    let q = p.drop_last();
    let k = p.last().0;
    let v = p.last().1;
    assert(round_trip_section(p[p.len() - 1].0, p[p.len() - 1].1));
    let nl: Seq<char> = seq!['\n'];
    let h = "["@ + k + "]"@;
    let a = pairs_blocks(q);
    let st_a = sections_from(lines(a), 0, sec_init());
    if q.len() > 0 {
        lemma_no_dup_prefix(p);
        assert forall|i: int| 0 <= i < q.len() implies round_trip_section(#[trigger] q[i].0, q[i].1) by {
            assert(q[i] == p[i]);
        }
        lemma_blocks_parse(q);
    } else {
        assert(a =~= Seq::<char>::empty());
        assert(lines(a) =~= Seq::<Seq<char>>::empty());
    }
    lemma_pairs_blocks_end(q);
    assert(clean_line(h)) by {
        assert(!h.contains('\n')) by {
            if h.contains('\n') {
                let j = choose|j: int| 0 <= j < h.len() && h[j] == '\n';
                assert(k[j - 1] == '\n');
            }
        }
        assert(h.last() == ']');
    }
    // the text without its trailing whitespace
    let x = if v.len() == 0 { a + h } else { a + (h + nl + v) };
    let w: Seq<char> = if v.len() == 0 { seq!['\n', '\n', '\n'] } else { seq!['\n', '\n'] };
    assert(pairs_blocks(p) =~= x + w);
    if v.len() > 0 {
        let k1 = lemma_trim_start_shape(v);
        let k2 = lemma_trim_end_shape(trim_start(v));
        assert(trim_start(v) =~= v);
        assert(!is_ws(v.last()));
        assert(x.last() == v.last());
    } else {
        assert(x.last() == ']');
    }
    lemma_trim_end_take(x + w, x.len() as int);
    assert((x + w).take(x.len() as int) =~= x);
    assert(trim_end(x) == x);
    // its lines: those of the earlier blocks, the header, the lines of the text
    lemma_value_lines(v);
    if v.len() == 0 {
        lemma_lines_append(a, h);
        lemma_lines_single(h);
        assert(lines(v) =~= Seq::<Seq<char>>::empty());
        assert(lines(x) =~= lines(a) + (seq![h] + lines(v)));
    } else {
        assert(a + (h + nl + v) =~= a + ((h + nl) + v));
        lemma_lines_append(a, (h + nl) + v);
        lemma_lines_append(h + nl, v);
        lemma_lines_one(h);
        assert(lines(x) =~= lines(a) + (seq![h] + lines(v)));
    }
    lemma_sections_concat(lines(a), seq![h] + lines(v), 0, sec_init());
    lemma_sections_concat(seq![h], lines(v), 0, st_a);
    assert(sections_from(seq![h], 1, section_step(st_a, h)) == section_step(st_a, h));
    lemma_header_step(p, st_a);
    let st_h = section_step(st_a, h);
    assert forall|j: int| 0 <= j < lines(v).len() implies spec_section_header(#[trigger] lines(v)[j]) is None by {}
    lemma_sections_body(lines(v), st_h);
    let buf = Seq::<char>::empty() + joined_lines(lines(v));
    if v.len() == 0 {
        assert(buf =~= Seq::<char>::empty());
        assert(trim_start(buf) =~= Seq::<char>::empty());
        assert(trim_end(Seq::<char>::empty()) =~= Seq::<char>::empty());
    } else {
        assert(buf =~= v + nl);
        assert forall|j: int| 0 <= j < nl.len() implies is_ws(#[trigger] nl[j]) by {}
        lemma_trim_pad(v, nl);
    }
    assert(trim(buf) == v);
    lemma_no_dup_prefix(p);
    lemma_inserted(q);
    assert(!has_key(inserted(q), k));
    assert(q + seq![p.last()] =~= p);
}

proof fn lemma_pairs_blocks_concat(p: Seq<(Seq<char>, Seq<char>)>, q: Seq<(Seq<char>, Seq<char>)>)
    ensures
        pairs_blocks(p + q) == pairs_blocks(p) + pairs_blocks(q),
    decreases q.len(),
{
    if q.len() == 0 {
        assert(p + q =~= p);
        assert(pairs_blocks(p) + pairs_blocks(q) =~= pairs_blocks(p));
    } else {
        lemma_pairs_blocks_concat(p, q.drop_last());
        assert((p + q).drop_last() =~= p + q.drop_last());
        assert((p + q).last() == q.last());
        assert(pairs_blocks(p + q) =~= pairs_blocks(p) + pairs_blocks(q));
    }
}

proof fn lemma_order_blocks_written(e: Entries, z: Seq<Seq<char>>)
    ensures
        order_blocks(e, z) == pairs_blocks(written_pairs(e, z)),
    decreases z.len(),
{
    if z.len() == 0 {
        assert(pairs_blocks(written_pairs(e, z)) =~= Seq::<char>::empty());
        assert(order_blocks(e, z) =~= Seq::<char>::empty());
    } else {
        lemma_order_blocks_written(e, z.drop_last());
        let w = written_pairs(e, z.drop_last());
        match lookup(e, z.last()) {
            Some(c) => {
                assert((w + seq![(z.last(), c)]).drop_last() =~= w);
            },
            None => {
                assert(w + Seq::<(Seq<char>, Seq<char>)>::empty() =~= w);
                assert(order_blocks(e, z) =~= order_blocks(e, z.drop_last()));
            },
        }
    }
}

proof fn lemma_written_pairs(e: Entries, z: Seq<Seq<char>>)
    ensures
        forall|i: int| 0 <= i < written_pairs(e, z).len() ==>
            lookup(e, #[trigger] written_pairs(e, z)[i].0) == Some(written_pairs(e, z)[i].1)
            && z.contains(written_pairs(e, z)[i].0),
        z.no_duplicates() ==> pair_names(written_pairs(e, z)).no_duplicates(),
        forall|k: Seq<char>| z.contains(k) && lookup(e, k) is Some ==> #[trigger] pair_names(written_pairs(e, z)).contains(k),
    decreases z.len(),
{
    let w = written_pairs(e, z);
    if z.len() == 0 {
        assert(w =~= Seq::<(Seq<char>, Seq<char>)>::empty());
    } else {
        let d = z.drop_last();
        let wd = written_pairs(e, d);
        lemma_written_pairs(e, d);
        assert forall|i: int| 0 <= i < w.len() implies lookup(e, #[trigger] w[i].0) == Some(w[i].1) && z.contains(w[i].0) by {
            if i < wd.len() {
                assert(w[i] == wd[i]);
                let j = choose|j: int| 0 <= j < d.len() && d[j] == wd[i].0;
                assert(z[j] == d[j]);
            } else {
                assert(z[z.len() - 1] == z.last());
            }
        }
        if z.no_duplicates() {
            assert(d.no_duplicates()) by {
                assert forall|a: int, b: int| 0 <= a < d.len() && 0 <= b < d.len() && a != b implies d[a] != d[b] by {
                    assert(d[a] == z[a]);
                    assert(d[b] == z[b]);
                }
            }
            assert forall|a: int, b: int| 0 <= a < pair_names(w).len() && 0 <= b < pair_names(w).len() && a != b
                implies pair_names(w)[a] != pair_names(w)[b] by {
                if a < wd.len() && b < wd.len() {
                    assert(pair_names(w)[a] == pair_names(wd)[a]);
                    assert(pair_names(w)[b] == pair_names(wd)[b]);
                } else if a < wd.len() {
                    assert(w[a] == wd[a]);
                    let j = choose|j: int| 0 <= j < d.len() && d[j] == wd[a].0;
                    assert(z[j] == d[j]);
                    assert(z[z.len() - 1] == z.last());
                } else if b < wd.len() {
                    assert(w[b] == wd[b]);
                    let j = choose|j: int| 0 <= j < d.len() && d[j] == wd[b].0;
                    assert(z[j] == d[j]);
                    assert(z[z.len() - 1] == z.last());
                }
            }
        }
        assert forall|k: Seq<char>| z.contains(k) && lookup(e, k) is Some implies #[trigger] pair_names(w).contains(k) by {
            if d.contains(k) {
                assert(pair_names(wd).contains(k));
                let j = choose|j: int| 0 <= j < pair_names(wd).len() && pair_names(wd)[j] == k;
                assert(pair_names(w)[j] == k);
            } else {
                let j = choose|j: int| 0 <= j < z.len() && z[j] == k;
                if j < d.len() {
                    assert(d[j] == k);
                }
                assert(k == z.last());
                assert(pair_names(w)[w.len() - 1] == k);
            }
        }
    }
}

pub proof fn lemma_keys_not_in(keys: Seq<Seq<char>>, order: Seq<Seq<char>>)
    ensures
        forall|y: Seq<char>| #[trigger] keys_not_in(keys, order).contains(y) <==> keys.contains(y) && !order.contains(y),
        keys.no_duplicates() ==> keys_not_in(keys, order).no_duplicates(),
    decreases keys.len(),
{
    if keys.len() > 0 {
        let d = keys.drop_last();
        let x = keys.last();
        lemma_keys_not_in(d, order);
        let r = keys_not_in(keys, order);
        let rd = keys_not_in(d, order);
        assert forall|y: Seq<char>| #[trigger] r.contains(y) <==> keys.contains(y) && !order.contains(y) by {
            if keys.contains(y) && y != x {
                let j = choose|j: int| 0 <= j < keys.len() && keys[j] == y;
                assert(d[j] == y);
            }
            if d.contains(y) {
                let j = choose|j: int| 0 <= j < d.len() && d[j] == y;
                assert(keys[j] == y);
            }
            if y == x {
                assert(keys[keys.len() - 1] == y);
            }
            if !order.contains(x) {
                assert(r == rd.push(x));
                if rd.contains(y) {
                    let j = choose|j: int| 0 <= j < rd.len() && rd[j] == y;
                    assert(r[j] == y);
                }
                if r.contains(y) && y != x {
                    let j = choose|j: int| 0 <= j < r.len() && r[j] == y;
                    assert(rd[j] == y);
                }
                if y == x {
                    assert(r[rd.len() as int] == x);
                }
            }
        }
        if keys.no_duplicates() {
            assert(d.no_duplicates()) by {
                assert forall|a: int, b: int| 0 <= a < d.len() && 0 <= b < d.len() && a != b implies d[a] != d[b] by {
                    assert(d[a] == keys[a]);
                    assert(d[b] == keys[b]);
                }
            }
            if !order.contains(x) {
                assert(!rd.contains(x)) by {
                    if rd.contains(x) {
                        let j = choose|j: int| 0 <= j < d.len() && d[j] == x;
                        assert(keys[j] == keys[keys.len() - 1]);
                    }
                }
                assert forall|a: int, b: int| 0 <= a < r.len() && 0 <= b < r.len() && a != b implies r[a] != r[b] by {
                    if a < rd.len() && b < rd.len() {
                        assert(r[a] == rd[a]);
                        assert(r[b] == rd[b]);
                    } else if a < rd.len() {
                        assert(r[a] == rd[a]);
                    } else if b < rd.len() {
                        assert(r[b] == rd[b]);
                    }
                }
            }
        }
    }
}

proof fn lemma_inserted_lookup(p: Seq<(Seq<char>, Seq<char>)>)
    requires
        pair_names(p).no_duplicates(),
    ensures
        forall|i: int| 0 <= i < p.len() ==> lookup(inserted(p), #[trigger] p[i].0) == Some(p[i].1),
    decreases p.len(),
{
    if p.len() > 0 {
        let q = p.drop_last();
        lemma_no_dup_prefix(p);
        lemma_inserted_lookup(q);
        lemma_inserted(q);
        lemma_insert(inserted(q), p.last().0, p.last().1);
        assert forall|i: int| 0 <= i < p.len() implies lookup(inserted(p), #[trigger] p[i].0) == Some(p[i].1) by {
            if i < q.len() {
                assert(p[i] == q[i]);
                assert(pair_names(p)[i] != pair_names(p)[p.len() - 1]);
            }
        }
    }
}

/// Writing sections to text (`sections_to_content`) and parsing the text back
/// (`parse_sections`) gives the same sections, each under its name, and no warning, when
/// every section survives the trip (`round_trip_section`: a lower-case name that reads as
/// a header, a trimmed text without `\r` none of whose lines reads as a header) and no
/// name is listed twice in `order`.
pub proof fn law_sections_round_trip(e: Entries, order: Seq<Seq<char>>)
    requires
        distinct_keys(e),
        forall|i: int| 0 <= i < e.len() ==> round_trip_section(#[trigger] e[i].0, e[i].1),
        order.no_duplicates(),
    ensures
        forall|k: Seq<char>| #[trigger] lookup(spec_parse_sections(spec_sections_to_content(e, order)).0, k) == lookup(e, k),
        spec_parse_sections(spec_sections_to_content(e, order)).1 == Seq::<Seq<char>>::empty(),
{
    let rest = sort_seqs(keys_not_in(keys_of(e), order));
    let w1 = written_pairs(e, order);
    let w2 = written_pairs(e, rest);
    let p = w1 + w2;
    lemma_order_blocks_written(e, order);
    lemma_order_blocks_written(e, rest);
    lemma_pairs_blocks_concat(w1, w2);
    assert(spec_sections_to_content(e, order) == trim_end(pairs_blocks(p)));
    // the names written: distinct, and every key of `e`
    assert(keys_of(e).no_duplicates()) by {
        assert forall|a: int, b: int| 0 <= a < keys_of(e).len() && 0 <= b < keys_of(e).len() && a != b
            implies keys_of(e)[a] != keys_of(e)[b] by {
            if a < b {
                assert(e[a].0 != e[b].0);
            } else {
                assert(e[b].0 != e[a].0);
            }
        }
    }
    lemma_keys_not_in(keys_of(e), order);
    lemma_sort_seqs_elems(keys_not_in(keys_of(e), order));
    lemma_written_pairs(e, order);
    lemma_written_pairs(e, rest);
    assert(pair_names(p).no_duplicates()) by {
        assert forall|a: int, b: int| 0 <= a < pair_names(p).len() && 0 <= b < pair_names(p).len() && a != b
            implies pair_names(p)[a] != pair_names(p)[b] by {
            if a < w1.len() && b < w1.len() {
                assert(pair_names(p)[a] == pair_names(w1)[a]);
                assert(pair_names(p)[b] == pair_names(w1)[b]);
            } else if a >= w1.len() && b >= w1.len() {
                assert(pair_names(p)[a] == pair_names(w2)[a - w1.len()]);
                assert(pair_names(p)[b] == pair_names(w2)[b - w1.len()]);
            } else {
                let (x, y) = if a < w1.len() { (a, b - w1.len()) } else { (b, a - w1.len()) };
                assert(p[x] == w1[x]);
                assert(p[w1.len() + y] == w2[y]);
                assert(order.contains(w1[x].0));
                assert(rest.contains(w2[y].0));
                assert(keys_not_in(keys_of(e), order).contains(w2[y].0));
            }
        }
    }
    assert forall|i: int| 0 <= i < p.len() implies lookup(e, #[trigger] p[i].0) == Some(p[i].1) by {
        if i < w1.len() {
            assert(p[i] == w1[i]);
        } else {
            assert(p[i] == w2[i - w1.len()]);
        }
    }
    assert forall|i: int| 0 <= i < p.len() implies round_trip_section(#[trigger] p[i].0, p[i].1) by {
        assert(lookup(e, p[i].0) == Some(p[i].1));
        lemma_key_index(e, p[i].0);
        let j = key_index(e, p[i].0);
        assert(e[j] == p[i]);
    }
    assert forall|k: Seq<char>| has_key(e, k) implies #[trigger] pair_names(p).contains(k) by {
        lemma_key_index(e, k);
        assert(keys_of(e).contains(k));
        assert(lookup(e, k) is Some);
        if order.contains(k) {
            assert(pair_names(w1).contains(k));
            let j = choose|j: int| 0 <= j < pair_names(w1).len() && pair_names(w1)[j] == k;
            assert(pair_names(p)[j] == k);
        } else {
            assert(keys_not_in(keys_of(e), order).contains(k));
            assert(rest.contains(k));
            assert(pair_names(w2).contains(k));
            let j = choose|j: int| 0 <= j < pair_names(w2).len() && pair_names(w2)[j] == k;
            assert(pair_names(p)[w1.len() + j] == k);
        }
    }
    if p.len() == 0 {
        assert(pairs_blocks(p) =~= Seq::<char>::empty());
        assert(trim_end(Seq::<char>::empty()) =~= Seq::<char>::empty());
        assert(lines(Seq::<char>::empty()) =~= Seq::<Seq<char>>::empty());
        assert forall|k: Seq<char>| #[trigger] lookup(spec_parse_sections(spec_sections_to_content(e, order)).0, k) == lookup(e, k) by {
            lemma_key_index(e, k);
            lemma_key_index(Seq::<(Seq<char>, Seq<char>)>::empty(), k);
            if has_key(e, k) {
                assert(pair_names(p).contains(k));
            }
        }
    } else {
        lemma_blocks_round_trip(p);
        lemma_inserted(p);
        lemma_inserted_lookup(p);
        assert forall|k: Seq<char>| #[trigger] lookup(spec_parse_sections(spec_sections_to_content(e, order)).0, k) == lookup(e, k) by {
            lemma_key_index(e, k);
            lemma_key_index(inserted(p), k);
            if pair_names(p).contains(k) {
                let j = choose|j: int| 0 <= j < pair_names(p).len() && pair_names(p)[j] == k;
                assert(p[j].0 == k);
            } else {
                assert(!has_key(e, k));
                assert(!has_key(inserted(p), k));
            }
        }
    }
}

} // verus!
