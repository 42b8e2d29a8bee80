//! Splitting skills into `##` chunks, chunk fingerprints, section names for headings and the
//! namespace shared by a group of skills.
use vstd::prelude::*;
use vstd::utf8::encode_utf8;
use vstd::string::StringSliceAdditionalSpecFns;
use crate::text::{
    chars_of, string_of, owned, concat2, vviews, lines, lines_vec, is_ws, is_whitespace, has_prefix,
    starts_with_vec, trim, trim_vec, all_ascii, ascii_lower, lower, to_lowercase, char_alnum,
    is_alphanumeric, utf8_width,
};
use crate::merger::{join, join_strings};
use crate::output::{sha256_of, sha256, hex_lower, hex_encode};

verus! {

/// A `## heading` and the lines under it.
#[derive(Debug, Clone)]
pub struct Chunk {
    pub heading: String,
    pub body: String,
}

/// A skill and its chunks.
#[derive(Debug, Clone)]
pub struct SkillContent {
    pub name: String,
    pub chunks: Vec<Chunk>,
}

// ───────────────────────── whitespace-separated words ─────────────────────────

/// The words found so far and the word being read, after reading `s`.
pub open spec fn words_state(s: Seq<char>) -> (Seq<Seq<char>>, Seq<char>)
    decreases s.len(),
{
    if s.len() == 0 {
        (seq![], seq![])
    } else {
        let (w, cur) = words_state(s.drop_last());
        if is_ws(s.last()) {
            if cur.len() > 0 {
                (w.push(cur), seq![])
            } else {
                (w, cur)
            }
        } else {
            (w, cur.push(s.last()))
        }
    }
}

/// `str::split_whitespace`: the maximal runs of non-whitespace characters.
pub open spec fn words(s: Seq<char>) -> Seq<Seq<char>> {
    let (w, cur) = words_state(s);
    if cur.len() > 0 {
        w.push(cur)
    } else {
        w
    }
}

/// The words of a text, as vectors of characters.
pub fn split_whitespace_vec(v: &Vec<char>) -> (r: Vec<Vec<char>>)
    ensures
        vviews(r@) == words(v@),
{
    let mut w: Vec<Vec<char>> = Vec::new();
    let mut cur: Vec<char> = Vec::new();
    let mut i: usize = 0;
    while i < v.len()
        invariant
            i <= v.len(),
            (vviews(w@), cur@) == words_state(v@.take(i as int)),
        decreases v.len() - i,
    {
        proof {
            assert(v@.take(i + 1).drop_last() =~= v@.take(i as int));
            assert(v@.take(i + 1).last() == v@[i as int]);
        }
        let c = v[i];
        let ghost wv = vviews(w@);
        if is_whitespace(c) {
            if cur.len() > 0 {
                let done = cur;
                cur = Vec::new();
                w.push(done);
                assert(vviews(w@) =~= wv.push(done@));
                assert(cur@ =~= Seq::<char>::empty());
            }
        } else {
            cur.push(c);
        }
        i = i + 1;
    }
    assert(v@.take(v.len() as int) =~= v@);
    let ghost wv = vviews(w@);
    if cur.len() > 0 {
        let ghost cv = cur@;
        w.push(cur);
        assert(vviews(w@) =~= wv.push(cv));
    }
    w
}

/// The words of a text joined by single spaces.
pub fn normalize_whitespace(s: &str) -> (r: String)
    ensures
        r@ == join(words(s@), " "@),
{
    let v = chars_of(s);
    let ws = split_whitespace_vec(&v);
    let mut parts: Vec<String> = Vec::new();
    let mut i: usize = 0;
    while i < ws.len()
        invariant
            i <= ws.len(),
            parts.deep_view() == vviews(ws@).take(i as int),
        decreases ws.len() - i,
    {
        let p = string_of(&ws[i]);
        let ghost before = parts.deep_view();
        parts.push(p);
        assert(parts.deep_view() =~= before.push(ws@[i as int]@));
        i = i + 1;
        assert(vviews(ws@).take(i as int) =~= before.push(ws@[(i - 1) as int]@));
    }
    assert(vviews(ws@).take(ws.len() as int) =~= vviews(ws@));
    join_strings(&parts, " ")
}

/// The first `n` bytes of a byte vector.
fn take_bytes(v: &Vec<u8>, n: usize) -> (r: Vec<u8>)
    requires
        n <= v@.len(),
    ensures
        r@ == v@.take(n as int),
{
    let mut r: Vec<u8> = Vec::new();
    let mut i: usize = 0;
    while i < n
        invariant
            i <= n,
            n <= v@.len(),
            r@ == v@.take(i as int),
        decreases n - i,
    {
        r.push(v[i]);
        i = i + 1;
        assert(r@ =~= v@.take(i as int));
    }
    r
}

/// The first `n` bytes of the SHA-256 of a text's UTF-8 bytes, in lower-case hex.
fn short_hash(text: &str, n: usize) -> (r: String)
    requires
        n <= 32,
    ensures
        r@ == hex_lower(sha256_of(encode_utf8(text@)).take(n as int)),
{
    let b = text.as_bytes();
    assert(b@ == encode_utf8(text@));
    let h = sha256(b);
    let first = take_bytes(&h, n);
    hex_encode(first.as_slice())
}

/// The fingerprint of a chunk: the first 8 bytes (16 hex digits) of the SHA-256 of its
/// body's words joined by single spaces.
pub open spec fn spec_fingerprint(body: Seq<char>) -> Seq<char> {
    hex_lower(sha256_of(encode_utf8(join(words(body), " "@))).take(8))
}

impl Chunk {
    /// A fingerprint of the body that ignores how its words are spaced.
    pub fn fingerprint(&self) -> (r: String)
        ensures
            r@ == spec_fingerprint(self.body@),
    {
        let normalized = normalize_whitespace(self.body.as_str());
        short_hash(normalized.as_str(), 8)
    }
}

// ───────────────────────── chunks ─────────────────────────

/// Leading `#` characters removed.
pub open spec fn strip_hashes(s: Seq<char>) -> Seq<char>
    decreases s.len(),
{
    if s.len() > 0 && s[0] == '#' {
        strip_hashes(s.drop_first())
    } else {
        s
    }
}

/// The heading text of a `## ` line.
pub open spec fn heading_text(line: Seq<char>) -> Seq<char> {
    trim(strip_hashes(line))
}

/// The reading state: chunks done, the open heading, the lines under it.
pub type ChunkState = (Seq<(Seq<char>, Seq<char>)>, Option<Seq<char>>, Seq<Seq<char>>);

/// The state after reading `ls` from the start.
pub open spec fn chunk_state(ls: Seq<Seq<char>>) -> ChunkState
    decreases ls.len(),
{
    if ls.len() == 0 {
        (seq![], None, seq![])
    } else {
        let (done, heading, body) = chunk_state(ls.drop_last());
        let line = ls.last();
        if has_prefix(line, "## "@) {
            match heading {
                Some(h) => (done.push((h, join(body, "\n"@))), Some(heading_text(line)), seq![]),
                None => (done, Some(heading_text(line)), body),
            }
        } else if heading is Some {
            (done, heading, body.push(line))
        } else {
            (done, heading, body)
        }
    }
}

/// The chunks of a text: each line starting with `## ` opens a chunk whose heading is the
/// line without its leading `#`s, trimmed, and whose body is the lines up to the next such
/// line joined by `\n`. Lines before the first heading belong to no chunk.
pub open spec fn spec_chunks(content: Seq<char>) -> Seq<(Seq<char>, Seq<char>)> {
    let (done, heading, body) = chunk_state(lines(content));
    match heading {
        Some(h) => done.push((h, join(body, "\n"@))),
        None => done,
    }
}

/// The (heading, body) views of chunks.
pub open spec fn chunks_view(c: Seq<Chunk>) -> Seq<(Seq<char>, Seq<char>)> {
    Seq::new(c.len(), |i: int| (c[i].heading@, c[i].body@))
}

fn heading_of_line(line: &Vec<char>) -> (r: String)
    ensures
        r@ == heading_text(line@),
{
    let mut i: usize = 0;
    assert(line@.skip(0) =~= line@);
    while i < line.len() && line[i] == '#'
        invariant
            i <= line.len(),
            strip_hashes(line@) == strip_hashes(line@.skip(i as int)),
        decreases line.len() - i,
    {
        proof {
            assert(line@.skip(i as int).drop_first() =~= line@.skip(i + 1));
        }
        i = i + 1;
    }
    proof {
        assert(line@.skip(i as int).len() == 0 || line@.skip(i as int)[0] != '#');
    }
    let rest = crate::text::sub_vec(line, i, line.len());
    assert(rest@ =~= line@.skip(i as int));
    let t = trim_vec(&rest);
    string_of(&t)
}

/// Splits a skill's text into chunks at its `## ` headings.
pub fn split_into_chunks(content: &str) -> (r: Vec<Chunk>)
    ensures
        chunks_view(r@) == spec_chunks(content@),
{
    let v = chars_of(content);
    let ls = lines_vec(&v);
    let ghost lv = vviews(ls@);
    let marker = chars_of("## ");
    proof {
        reveal_strlit("## ");
    }
    let mut chunks: Vec<Chunk> = Vec::new();
    let mut heading: Option<String> = None;
    let mut body: Vec<String> = Vec::new();
    let mut i: usize = 0;
    assert(lv.take(0) =~= Seq::<Seq<char>>::empty());
    while i < ls.len()
        invariant
            i <= ls.len(),
            lv == vviews(ls@),
            lv == lines(content@),
            marker@ == "## "@,
            chunk_state(lv.take(i as int)) == (
                chunks_view(chunks@),
                match heading {
                    Some(h) => Some(h@),
                    None => None::<Seq<char>>,
                },
                body.deep_view(),
            ),
        decreases ls.len() - i,
    {
        proof {
            assert(lv.take(i + 1).drop_last() =~= lv.take(i as int));
            assert(lv.take(i + 1).last() == ls@[i as int]@);
        }
        let line = &ls[i];
        let ghost cv = chunks_view(chunks@);
        let ghost bv = body.deep_view();
        if starts_with_vec(line, &marker) {
            let h = heading_of_line(line);
            match heading {
                Some(prev) => {
                    let b = join_strings(&body, "\n");
                    chunks.push(Chunk { heading: prev, body: b });
                    assert(chunks_view(chunks@) =~= cv.push((prev@, join(bv, "\n"@))));
                    body = Vec::new();
                    assert(body.deep_view() =~= Seq::<Seq<char>>::empty());
                },
                None => {},
            }
            heading = Some(h);
        } else if heading.is_some() {
            body.push(string_of(line));
            assert(body.deep_view() =~= bv.push(line@));
        }
        i = i + 1;
    }
    assert(lv.take(ls.len() as int) =~= lv);
    let ghost cv = chunks_view(chunks@);
    match heading {
        Some(h) => {
            let b = join_strings(&body, "\n");
            let ghost hv = h@;
            chunks.push(Chunk { heading: h, body: b });
            assert(chunks_view(chunks@) =~= cv.push((hv, b@)));
        },
        None => {},
    }
    chunks
}

// ───────────────────────── section names for headings ─────────────────────────

/// The characters kept in a section name: alphanumerics and `-`.
pub open spec fn keep_section_chars(s: Seq<char>) -> Seq<char>
    decreases s.len(),
{
    if s.len() == 0 {
        seq![]
    } else if char_alnum(s.last()) || s.last() == '-' {
        keep_section_chars(s.drop_last()).push(s.last())
    } else {
        keep_section_chars(s.drop_last())
    }
}

/// The section name for a heading: for ASCII headings, the lower-cased words joined by `-`
/// with every character other than alphanumerics and `-` removed; for other headings,
/// `section-` and the first 3 bytes of the SHA-256 of the heading in hex.
pub open spec fn spec_section_name(heading: Seq<char>) -> Seq<char> {
    if all_ascii(heading) {
        keep_section_chars(join(words(lower(heading)), "-"@))
    } else {
        "section-"@ + hex_lower(sha256_of(encode_utf8(heading)).take(3))
    }
}

fn is_ascii_vec(v: &Vec<char>) -> (b: bool)
    ensures
        b == all_ascii(v@),
{
    let mut i: usize = 0;
    while i < v.len()
        invariant
            i <= v.len(),
            forall|j: int| 0 <= j < i ==> (v@[j] as u32) < 128,
        decreases v.len() - i,
    {
        if (v[i] as u32) >= 128 {
            return false;
        }
        i = i + 1;
    }
    true
}

fn keep_section_chars_vec(v: &Vec<char>) -> (r: Vec<char>)
    ensures
        r@ == keep_section_chars(v@),
{
    let mut r: Vec<char> = Vec::new();
    let mut i: usize = 0;
    while i < v.len()
        invariant
            i <= v.len(),
            r@ == keep_section_chars(v@.take(i as int)),
        decreases v.len() - i,
    {
        proof {
            assert(v@.take(i + 1).drop_last() =~= v@.take(i as int));
            assert(v@.take(i + 1).last() == v@[i as int]);
        }
        let c = v[i];
        if is_alphanumeric(c) || c == '-' {
            r.push(c);
        }
        i = i + 1;
    }
    assert(v@.take(v.len() as int) =~= v@);
    r
}

/// Converts a heading to a section name: lower-case kebab-case for ASCII headings, a
/// hash-based name for others.
pub fn heading_to_section_name(heading: &str) -> (r: String)
    ensures
        r@ == spec_section_name(heading@),
{
    let hv = chars_of(heading);
    if is_ascii_vec(&hv) {
        let low = to_lowercase(heading);
        let joined = normalize_words_with(low.as_str(), "-");
        let jv = chars_of(joined.as_str());
        let kept = keep_section_chars_vec(&jv);
        string_of(&kept)
    } else {
        let h = short_hash(heading, 3);
        proof {
            reveal_strlit("section-");
        }
        concat2("section-", h.as_str())
    }
}

/// The words of a text joined by `sep`.
fn normalize_words_with(s: &str, sep: &str) -> (r: String)
    ensures
        r@ == join(words(s@), sep@),
{
    let v = chars_of(s);
    let ws = split_whitespace_vec(&v);
    let mut parts: Vec<String> = Vec::new();
    let mut i: usize = 0;
    while i < ws.len()
        invariant
            i <= ws.len(),
            parts.deep_view() == vviews(ws@).take(i as int),
        decreases ws.len() - i,
    {
        let p = string_of(&ws[i]);
        let ghost before = parts.deep_view();
        parts.push(p);
        assert(parts.deep_view() =~= before.push(ws@[i as int]@));
        i = i + 1;
        assert(vviews(ws@).take(i as int) =~= before.push(ws@[(i - 1) as int]@));
    }
    assert(vviews(ws@).take(ws.len() as int) =~= vviews(ws@));
    join_strings(&parts, sep)
}

/// The body of a core layer made of common chunks: for each (heading, body) a
/// `[section]` line, where the section is the heading's section name, then the trimmed body;
/// the blocks joined by blank lines.
pub open spec fn spec_core_content(chunks: Seq<(Seq<char>, Seq<char>)>) -> Seq<char> {
    join(
        Seq::new(chunks.len(), |i: int| "["@ + spec_section_name(chunks[i].0) + "]\n"@ + trim(chunks[i].1)),
        "\n\n"@,
    )
}

/// The string pairs as plain values.
pub open spec fn pairs_view(p: Seq<(String, String)>) -> Seq<(Seq<char>, Seq<char>)> {
    Seq::new(p.len(), |i: int| (p[i].0@, p[i].1@))
}

/// Builds the prompt of a core layer from common chunks, given as (heading, representative
/// body) pairs: each becomes a `[section-name]` block.
pub fn extract_core_content(chunks: &[(String, String)]) -> (r: String)
    ensures
        r@ == spec_core_content(pairs_view(chunks@)),
{
    let ghost cv = pairs_view(chunks@);
    let ghost blocks = Seq::new(cv.len(), |i: int| "["@ + spec_section_name(cv[i].0) + "]\n"@ + trim(cv[i].1));
    let mut parts: Vec<String> = Vec::new();
    let mut i: usize = 0;
    proof {
        reveal_strlit("[");
        reveal_strlit("]\n");
    }
    while i < chunks.len()
        invariant
            i <= chunks@.len(),
            cv == pairs_view(chunks@),
            blocks == Seq::new(cv.len(), |i: int| "["@ + spec_section_name(cv[i].0) + "]\n"@ + trim(cv[i].1)),
            parts.deep_view() == blocks.take(i as int),
        decreases chunks@.len() - i,
    {
        let section = heading_to_section_name(chunks[i].0.as_str());
        let body = trim_vec(&chars_of(chunks[i].1.as_str()));
        let bs = string_of(&body);
        let a = concat2("[", section.as_str());
        let b = concat2(a.as_str(), "]\n");
        let block = concat2(b.as_str(), bs.as_str());
        let ghost before = parts.deep_view();
        parts.push(block);
        assert(parts.deep_view() =~= before.push(blocks[i as int]));
        i = i + 1;
        assert(blocks.take(i as int) =~= before.push(blocks[(i - 1) as int]));
    }
    assert(blocks.take(chunks@.len() as int) =~= blocks);
    join_strings(&parts, "\n\n")
}

// ───────────────────────── namespaces ─────────────────────────

/// Whether every name starts with `p`.
pub open spec fn all_have_prefix(names: Seq<Seq<char>>, p: Seq<char>) -> bool {
    forall|i: int| 0 <= i < names.len() ==> has_prefix(#[trigger] names[i], p)
}

/// The greatest `j <= k` such that every name starts with the first `j` characters of the
/// first name, or 0 when there is none with `j >= 1`.
pub open spec fn common_len(names: Seq<Seq<char>>, k: int) -> int
    decreases k,
{
    if k <= 0 {
        0
    } else if all_have_prefix(names, names[0].take(k)) {
        k
    } else {
        common_len(names, k - 1)
    }
}

/// Trailing `-` characters removed.
pub open spec fn trim_dashes(s: Seq<char>) -> Seq<char>
    decreases s.len(),
{
    if s.len() > 0 && s.last() == '-' {
        trim_dashes(s.drop_last())
    } else {
        s
    }
}

/// The namespace shared by skill names: the longest common prefix of all of them (at least
/// one character) without trailing `-`, or `common`.
pub open spec fn spec_namespace(names: Seq<Seq<char>>) -> Seq<char> {
    if names.len() == 0 {
        "common"@
    } else {
        let j = common_len(names, names[0].len() as int);
        if j == 0 {
            "common"@
        } else {
            trim_dashes(names[0].take(j))
        }
    }
}

/// The scan goes from the whole first name down, one byte at a time, and can only stop on a
/// character boundary: every character of the first name after the common prefix is
/// one byte long.
pub open spec fn namespace_scan_ok(names: Seq<Seq<char>>) -> bool {
    names.len() > 0 ==> forall|i: int|
        common_len(names, names[0].len() as int) <= i < names[0].len() ==> utf8_width(#[trigger] names[0][i]) == 1
}

/// The string views of names.
pub open spec fn names_of(v: Seq<String>) -> Seq<Seq<char>> {
    Seq::new(v.len(), |i: int| v[i]@)
}

/// Infers the common namespace of a list of skill names:
/// `["pua", "pua-en", "pua-ja"]` gives `pua`; `["sched-critic", "cpu-expert"]` gives `common`.
pub fn infer_namespace(names: &[String]) -> (r: String)
    requires
        namespace_scan_ok(names_of(names@)),
    ensures
        r@ == spec_namespace(names_of(names@)),
{
    let ghost nv = names_of(names@);
    proof {
        reveal_strlit("common");
    }
    if names.len() == 0 {
        return owned("common");
    }
    let first = chars_of(names[0].as_str());
    let mut all: Vec<Vec<char>> = Vec::new();
    let mut t: usize = 0;
    while t < names.len()
        invariant
            t <= names@.len(),
            nv == names_of(names@),
            vviews(all@) == nv.take(t as int),
        decreases names@.len() - t,
    {
        let ghost before = vviews(all@);
        all.push(chars_of(names[t].as_str()));
        assert(vviews(all@) =~= before.push(nv[t as int]));
        t = t + 1;
        assert(nv.take(t as int) =~= before.push(nv[(t - 1) as int]));
    }
    assert(nv.take(names@.len() as int) =~= nv);
    let mut k: usize = first.len();
    while k > 0
        invariant
            k <= first@.len(),
            first@ == nv[0],
            vviews(all@) == nv,
            nv == names_of(names@),
            nv.len() > 0,
            common_len(nv, first@.len() as int) == common_len(nv, k as int),
        decreases k,
    {
        let prefix = crate::text::sub_vec(&first, 0, k);
        assert(prefix@ =~= nv[0].take(k as int));
        let mut ok = true;
        let mut q: usize = 0;
        while q < all.len()
            invariant
                q <= all@.len(),
                vviews(all@) == nv,
                prefix@ == nv[0].take(k as int),
                ok == (forall|j: int| 0 <= j < q ==> has_prefix(#[trigger] nv[j], prefix@)),
            decreases all@.len() - q,
        {
            let found = starts_with_vec(&all[q], &prefix);
            proof {
                assert(all@[q as int]@ == nv[q as int]);
            }
            if !found {
                ok = false;
            }
            q = q + 1;
        }
        if ok {
            proof {
                assert(all_have_prefix(nv, nv[0].take(k as int)));
                assert(common_len(nv, k as int) == k);
            }
            let mut e: usize = k;
            while e > 0 && first[e - 1] == '-'
                invariant
                    e <= k,
                    k <= first@.len(),
                    trim_dashes(nv[0].take(k as int)) == trim_dashes(nv[0].take(e as int)),
                    first@ == nv[0],
                decreases e,
            {
                proof {
                    assert(nv[0].take(e as int).drop_last() =~= nv[0].take(e - 1));
                }
                e = e - 1;
            }
            let out = crate::text::sub_vec(&first, 0, e);
            assert(out@ =~= nv[0].take(e as int));
            proof {
                if e > 0 {
                    assert(nv[0].take(e as int).last() == first@[e - 1]);
                }
                assert(trim_dashes(nv[0].take(e as int)) == nv[0].take(e as int));
                assert(common_len(nv, nv[0].len() as int) == k);
                assert(out@ == trim_dashes(nv[0].take(k as int)));
            }
            return string_of(&out);
        }
        k = k - 1;
    }
    owned("common")
}

proof fn lemma_trim_dashes_prefix(s: Seq<char>)
    ensures
        trim_dashes(s).len() <= s.len(),
        trim_dashes(s) == s.take(trim_dashes(s).len() as int),
    decreases s.len(),
{
    if s.len() > 0 && s.last() == '-' {
        lemma_trim_dashes_prefix(s.drop_last());
        let t = trim_dashes(s.drop_last());
        assert(s.drop_last().take(t.len() as int) =~= s.take(t.len() as int));
    } else {
        assert(s.take(s.len() as int) =~= s);
    }
}

proof fn lemma_common_len(names: Seq<Seq<char>>, k: int)
    requires
        names.len() > 0,
    ensures
        0 <= common_len(names, k),
        k >= 0 ==> common_len(names, k) <= k,
        common_len(names, k) > 0 ==> all_have_prefix(names, names[0].take(common_len(names, k))),
    decreases k,
{
    if k > 0 && !all_have_prefix(names, names[0].take(k)) {
        lemma_common_len(names, k - 1);
    }
}

/// The inferred namespace is `common`, or a prefix that every skill name starts with.
pub proof fn law_namespace_is_common_prefix(names: Seq<Seq<char>>)
    ensures
        spec_namespace(names) == "common"@ || all_have_prefix(names, spec_namespace(names)),
{
    if names.len() > 0 {
        let j = common_len(names, names[0].len() as int);
        lemma_common_len(names, names[0].len() as int);
        if j > 0 {
            let p = names[0].take(j);
            lemma_trim_dashes_prefix(p);
            let t = trim_dashes(p);
            assert forall|i: int| 0 <= i < names.len() implies has_prefix(#[trigger] names[i], t) by {
                assert(has_prefix(names[i], p));
                assert(names[i].take(t.len() as int) =~= p.take(t.len() as int));
            }
        }
    }
}

/// Two bodies with the same words, however they are spaced, have the same fingerprint.
pub proof fn law_fingerprint_ignores_spacing(a: Seq<char>, b: Seq<char>)
    requires
        words(a) == words(b),
    ensures
        spec_fingerprint(a) == spec_fingerprint(b),
{
}

/// Whether inferring the namespace of `names` stays on character boundaries (see
/// `namespace_scan_ok`).
pub fn namespace_scan_safe(names: &[String]) -> (b: bool)
    ensures
        b == namespace_scan_ok(names_of(names@)),
{
    let ghost nv = names_of(names@);
    if names.len() == 0 {
        return true;
    }
    let first = chars_of(names[0].as_str());
    let mut all: Vec<Vec<char>> = Vec::new();
    let mut t: usize = 0;
    while t < names.len()
        invariant
            t <= names@.len(),
            nv == names_of(names@),
            vviews(all@) == nv.take(t as int),
        decreases names@.len() - t,
    {
        let ghost before = vviews(all@);
        all.push(chars_of(names[t].as_str()));
        assert(vviews(all@) =~= before.push(nv[t as int]));
        t = t + 1;
        assert(nv.take(t as int) =~= before.push(nv[(t - 1) as int]));
    }
    assert(nv.take(names@.len() as int) =~= nv);
    let mut k: usize = first.len();
    let mut found = false;
    while k > 0 && !found
        invariant
            k <= first@.len(),
            first@ == nv[0],
            vviews(all@) == nv,
            nv.len() > 0,
            found ==> common_len(nv, first@.len() as int) == k,
            !found ==> common_len(nv, first@.len() as int) == common_len(nv, k as int),
        decreases k + (if found { 0int } else { 1int }),
    {
        let prefix = crate::text::sub_vec(&first, 0, k);
        assert(prefix@ =~= nv[0].take(k as int));
        let mut ok = true;
        let mut q: usize = 0;
        while q < all.len()
            invariant
                q <= all@.len(),
                vviews(all@) == nv,
                prefix@ == nv[0].take(k as int),
                ok == (forall|j: int| 0 <= j < q ==> has_prefix(#[trigger] nv[j], prefix@)),
            decreases all@.len() - q,
        {
            let hit = starts_with_vec(&all[q], &prefix);
            proof {
                assert(all@[q as int]@ == nv[q as int]);
            }
            if !hit {
                ok = false;
            }
            q = q + 1;
        }
        if ok {
            proof {
                assert(all_have_prefix(nv, nv[0].take(k as int)));
            }
            found = true;
        } else {
            k = k - 1;
        }
    }
    proof {
        if !found {
            assert(k == 0);
        }
    }
    let j = k;
    let mut i: usize = j;
    while i < first.len()
        invariant
            j <= i <= first@.len(),
            first@ == nv[0],
            nv == names_of(names@),
            nv.len() > 0,
            common_len(nv, first@.len() as int) == j,
            forall|m: int| j <= m < i ==> utf8_width(#[trigger] nv[0][m]) == 1,
        decreases first@.len() - i,
    {
        if (first[i] as u32) >= 0x80 {
            assert(utf8_width(nv[0][i as int]) != 1);
            return false;
        }
        i = i + 1;
    }
    true
}

} // verus!
