//! Finding content that skills share: chunks with the same fingerprint in two or more
//! skills, the word overlap behind the similarity of two chunks, and the keys by which
//! pairs of skills are remembered.
use vstd::prelude::*;
use crate::text::{chars_of, string_of, owned, concat3, seq_lt, str_lt, lemma_seq_lt_irrefl,
    lemma_seq_lt_trans, lemma_seq_lt_total, vviews, str_eq};
use crate::layer::{strs_view, contains_string};
use crate::similarity::{
    Chunk, SkillContent, spec_fingerprint, words, words_state, split_whitespace_vec, spec_namespace,
    namespace_scan_ok, names_of, infer_namespace, namespace_scan_safe,
};
use crate::text::{sort_seqs, sort_strings, split_seq, split_all, concat2};
use crate::merger::{join, join_strings};

verus! {

// ───────────────────────── exact matches ─────────────────────────

/// A skill as plain values: its name and the bodies of its chunks.
pub open spec fn skills_view(sk: Seq<SkillContent>) -> Seq<(Seq<char>, Seq<Seq<char>>)> {
    Seq::new(sk.len(), |i: int| (sk[i].name@, Seq::new(sk[i].chunks@.len(), |j: int| sk[i].chunks@[j].body@)))
}

/// The chunks of skills `0..n` as (skill, chunk) positions, skill by skill.
pub open spec fn occs_upto(sk: Seq<(Seq<char>, Seq<Seq<char>>)>, n: int) -> Seq<(int, int)>
    decreases n,
{
    if n <= 0 {
        seq![]
    } else {
        occs_upto(sk, n - 1) + Seq::new(sk[n - 1].1.len(), |j: int| (n - 1, j))
    }
}

/// The fingerprint of the chunk at a position.
pub open spec fn occ_fp(sk: Seq<(Seq<char>, Seq<Seq<char>>)>, o: (int, int)) -> Seq<char> {
    spec_fingerprint(sk[o.0].1[o.1])
}

/// A fingerprint and the positions of the chunks that have it.
pub type FpGroup = (Seq<char>, Seq<(int, int)>);

/// Index of the group of fingerprint `f`, or -1.
pub open spec fn fp_index(g: Seq<FpGroup>, f: Seq<char>) -> int
    decreases g.len(),
{
    if g.len() == 0 {
        -1
    } else if g[0].0 == f {
        0
    } else {
        let r = fp_index(g.drop_first(), f);
        if r < 0 {
            -1
        } else {
            r + 1
        }
    }
}

/// One more chunk: added to the group of its fingerprint, or opening a new group last.
pub open spec fn fp_add(g: Seq<FpGroup>, f: Seq<char>, o: (int, int)) -> Seq<FpGroup> {
    let i = fp_index(g, f);
    if 0 <= i < g.len() {
        g.update(i, (f, g[i].1.push(o)))
    } else {
        g.push((f, seq![o]))
    }
}

/// The chunks at positions `os` grouped by fingerprint, in order of first appearance.
pub open spec fn fp_groups(sk: Seq<(Seq<char>, Seq<Seq<char>>)>, os: Seq<(int, int)>) -> Seq<FpGroup>
    decreases os.len(),
{
    if os.len() == 0 {
        seq![]
    } else {
        fp_add(fp_groups(sk, os.drop_last()), occ_fp(sk, os.last()), os.last())
    }
}

/// The distinct names of the skills at positions `os`, in order of first appearance.
pub open spec fn occ_names(sk: Seq<(Seq<char>, Seq<Seq<char>>)>, os: Seq<(int, int)>) -> Seq<Seq<char>>
    decreases os.len(),
{
    if os.len() == 0 {
        seq![]
    } else {
        let p = occ_names(sk, os.drop_last());
        let n = sk[os.last().0].0;
        if p.contains(n) {
            p
        } else {
            p.push(n)
        }
    }
}

/// The groups that span two or more differently named skills, each as its first chunk's
/// position and the skills' names.
pub open spec fn spanning(sk: Seq<(Seq<char>, Seq<Seq<char>>)>, g: Seq<FpGroup>) -> Seq<((int, int), Seq<Seq<char>>)>
    decreases g.len(),
{
    if g.len() == 0 {
        seq![]
    } else {
        let p = spanning(sk, g.drop_last());
        let names = occ_names(sk, g.last().1);
        if names.len() >= 2 {
            p.push((g.last().1[0], names))
        } else {
            p
        }
    }
}

/// The chunks found verbatim (up to spacing) in two or more skills: one per fingerprint,
/// in order of first appearance.
pub open spec fn spec_exact_matches(sk: Seq<(Seq<char>, Seq<Seq<char>>)>) -> Seq<((int, int), Seq<Seq<char>>)> {
    spanning(sk, fp_groups(sk, occs_upto(sk, sk.len() as int)))
}

/// A chunk shared by several skills: where it first appears and the names of the skills
/// that have it, in order of first appearance.
#[derive(Debug, Clone)]
pub struct ExactMatch {
    pub skill: usize,
    pub chunk: usize,
    pub skill_names: Vec<String>,
}

/// Exact matches as plain values.
pub open spec fn matches_view(m: Seq<ExactMatch>) -> Seq<((int, int), Seq<Seq<char>>)> {
    Seq::new(m.len(), |i: int| ((m[i].skill as int, m[i].chunk as int), strs_view(m[i].skill_names@)))
}

/// Positions as plain values.
pub open spec fn pos_view(v: Seq<(usize, usize)>) -> Seq<(int, int)> {
    Seq::new(v.len(), |j: int| (v[j].0 as int, v[j].1 as int))
}

/// Groups as plain values.
pub open spec fn groups_view(g: Seq<(String, Vec<(usize, usize)>)>) -> Seq<FpGroup> {
    Seq::new(g.len(), |i: int| (g[i].0@, pos_view(g[i].1@)))
}

/// A position that names a chunk.
pub open spec fn valid_pos(sk: Seq<(Seq<char>, Seq<Seq<char>>)>, o: (int, int)) -> bool {
    0 <= o.0 < sk.len() && 0 <= o.1 < sk[o.0].1.len()
}

/// Every group is non-empty and holds positions of chunks of skills before `n`.
pub open spec fn groups_ok(sk: Seq<(Seq<char>, Seq<Seq<char>>)>, g: Seq<FpGroup>, n: int) -> bool {
    &&& forall|a: int| 0 <= a < g.len() ==> (#[trigger] g[a]).1.len() > 0
    &&& forall|a: int, b: int| 0 <= a < g.len() && 0 <= b < g[a].1.len() ==>
        valid_pos(sk, #[trigger] g[a].1[b]) && g[a].1[b].0 < n
}

proof fn lemma_fp_add_ok(sk: Seq<(Seq<char>, Seq<Seq<char>>)>, g: Seq<FpGroup>, f: Seq<char>, o: (int, int), n: int)
    requires
        groups_ok(sk, g, n),
        valid_pos(sk, o),
        o.0 < n,
    ensures
        groups_ok(sk, fp_add(g, f, o), n),
{
    let g2 = fp_add(g, f, o);
    let i = fp_index(g, f);
    assert forall|a: int, b: int| 0 <= a < g2.len() && 0 <= b < g2[a].1.len() implies
        valid_pos(sk, #[trigger] g2[a].1[b]) && g2[a].1[b].0 < n by {
        if 0 <= i < g.len() {
            if a == i && b == g[i].1.len() {
            } else {
                assert(g2[a].1[b] == g[a].1[b]);
            }
        } else if a < g.len() {
            assert(g2[a] == g[a]);
        }
    }
    assert forall|a: int| 0 <= a < g2.len() implies (#[trigger] g2[a]).1.len() > 0 by {
        if a < g.len() && !(0 <= i < g.len() && a == i) {
            assert(g2[a] == g[a]);
        }
    }
}

proof fn lemma_fp_index_at(g: Seq<FpGroup>, f: Seq<char>, i: int)
    requires
        0 <= i < g.len(),
        g[i].0 == f,
        forall|j: int| 0 <= j < i ==> g[j].0 != f,
    ensures
        fp_index(g, f) == i,
    decreases i,
{
    if i > 0 {
        lemma_fp_index_at(g.drop_first(), f, i - 1);
    }
}

proof fn lemma_fp_index_none(g: Seq<FpGroup>, f: Seq<char>)
    requires
        forall|j: int| 0 <= j < g.len() ==> g[j].0 != f,
    ensures
        fp_index(g, f) == -1,
    decreases g.len(),
{
    if g.len() > 0 {
        lemma_fp_index_none(g.drop_first(), f);
    }
}

fn add_occurrence(groups: &mut Vec<(String, Vec<(usize, usize)>)>, f: String, o: (usize, usize))
    ensures
        groups_view(final(groups)@) == fp_add(groups_view(old(groups)@), f@, (o.0 as int, o.1 as int)),
{
    let ghost gv = groups_view(groups@);
    let mut k: usize = 0;
    while k < groups.len()
        invariant
            k <= groups@.len(),
            gv == groups_view(groups@),
            gv == groups_view(old(groups)@),
            forall|j: int| 0 <= j < k ==> gv[j].0 != f@,
        decreases groups@.len() - k,
    {
        if str_eq(groups[k].0.as_str(), f.as_str()) {
            proof {
                lemma_fp_index_at(gv, f@, k as int);
            }
            let mut entry: (String, Vec<(usize, usize)>) = (String::new(), Vec::new());
            std::mem::swap(&mut entry, &mut groups[k]);
            let ghost before = entry.1@;
            assert(pos_view(before) == gv[k as int].1);
            entry.1.push(o);
            assert(pos_view(entry.1@) =~= gv[k as int].1.push((o.0 as int, o.1 as int)));
            assert(entry.0@ == f@);
            groups.set(k, entry);
            assert(groups_view(groups@) =~= gv.update(k as int, (f@, gv[k as int].1.push((o.0 as int, o.1 as int)))));
            return;
        }
        k = k + 1;
    }
    proof {
        lemma_fp_index_none(gv, f@);
    }
    let mut v: Vec<(usize, usize)> = Vec::new();
    v.push(o);
    let ghost fv = f@;
    assert(pos_view(v@) =~= seq![(o.0 as int, o.1 as int)]);
    groups.push((f, v));
    assert(groups_view(groups@) =~= gv.push((fv, seq![(o.0 as int, o.1 as int)])));
}

fn names_of_occurrences(skills: &[SkillContent], os: &Vec<(usize, usize)>) -> (r: Vec<String>)
    requires
        forall|t: int| 0 <= t < os@.len() ==> (#[trigger] os@[t]).0 < skills@.len(),
    ensures
        strs_view(r@) == occ_names(
            skills_view(skills@),
            Seq::new(os@.len(), |j: int| (os@[j].0 as int, os@[j].1 as int)),
        ),
{
    let ghost sk = skills_view(skills@);
    let ghost ov = Seq::new(os@.len(), |j: int| (os@[j].0 as int, os@[j].1 as int));
    let mut names: Vec<String> = Vec::new();
    let mut t: usize = 0;
    assert(strs_view(names@) =~= occ_names(sk, ov.take(0)));
    while t < os.len()
        invariant
            t <= os@.len(),
            sk == skills_view(skills@),
            ov == Seq::new(os@.len(), |j: int| (os@[j].0 as int, os@[j].1 as int)),
            forall|u: int| 0 <= u < os@.len() ==> (#[trigger] os@[u]).0 < skills@.len(),
            strs_view(names@) == occ_names(sk, ov.take(t as int)),
        decreases os@.len() - t,
    {
        proof {
            assert(ov.take(t + 1).drop_last() =~= ov.take(t as int));
            assert(ov.take(t + 1).last() == ov[t as int]);
        }
        let s = os[t].0;
        let n = &skills[s].name;
        assert(sk[s as int].0 == n@);
        if !contains_string(names.as_slice(), n.as_str()) {
            let ghost before = strs_view(names@);
            names.push(n.clone());
            assert(strs_view(names@) =~= before.push(n@));
        }
        t = t + 1;
    }
    assert(ov.take(os@.len() as int) =~= ov);
    names
}

/// The chunks that two or more skills share verbatim (up to spacing): for each such
/// fingerprint, in order of first appearance, where the chunk first appears and the names
/// of the skills that have it.
pub fn exact_common_chunks(skills: &[SkillContent]) -> (r: Vec<ExactMatch>)
    ensures
        matches_view(r@) == spec_exact_matches(skills_view(skills@)),
{
    let ghost sk = skills_view(skills@);
    let mut groups: Vec<(String, Vec<(usize, usize)>)> = Vec::new();
    let mut i: usize = 0;
    assert(groups_view(groups@) =~= fp_groups(sk, occs_upto(sk, 0)));
    assert(groups_ok(sk, groups_view(groups@), 0));
    while i < skills.len()
        invariant
            i <= skills@.len(),
            sk == skills_view(skills@),
            groups_view(groups@) == fp_groups(sk, occs_upto(sk, i as int)),
            groups_ok(sk, groups_view(groups@), i as int),
        decreases skills@.len() - i,
    {
        let ghost base = occs_upto(sk, i as int);
        let mut j: usize = 0;
        assert(base + Seq::new(0, |t: int| (i as int, t)) =~= base);
        assert(groups_ok(sk, groups_view(groups@), i + 1));
        while j < skills[i].chunks.len()
            invariant
                i < skills@.len(),
                j <= skills@[i as int].chunks@.len(),
                sk == skills_view(skills@),
                base == occs_upto(sk, i as int),
                groups_view(groups@) == fp_groups(sk, base + Seq::new(j as nat, |t: int| (i as int, t))),
                groups_ok(sk, groups_view(groups@), i + 1),
            decreases skills@[i as int].chunks@.len() - j,
        {
            let f = skills[i].chunks[j].fingerprint();
            let ghost os = base + Seq::new(j as nat, |t: int| (i as int, t));
            let ghost os2 = base + Seq::new((j + 1) as nat, |t: int| (i as int, t));
            proof {
                assert(os2.drop_last() =~= os);
                assert(os2.last() == (i as int, j as int));
                assert(sk[i as int].1[j as int] == skills@[i as int].chunks@[j as int].body@);
            }
            proof {
                assert(sk[i as int].1.len() == skills@[i as int].chunks@.len());
                lemma_fp_add_ok(sk, groups_view(groups@), f@, (i as int, j as int), i + 1);
            }
            add_occurrence(&mut groups, f, (i, j));
            j = j + 1;
        }
        proof {
            assert(occs_upto(sk, i + 1) =~= base + Seq::new(sk[i as int].1.len(), |t: int| (i as int, t)));
            assert(sk[i as int].1.len() == skills@[i as int].chunks@.len());
        }
        i = i + 1;
    }
    let ghost all = groups_view(groups@);
    let mut out: Vec<ExactMatch> = Vec::new();
    let mut k: usize = 0;
    assert(matches_view(out@) =~= spanning(sk, all.take(0)));
    while k < groups.len()
        invariant
            k <= groups@.len(),
            sk == skills_view(skills@),
            all == groups_view(groups@),
            groups_ok(sk, all, skills@.len() as int),
            matches_view(out@) == spanning(sk, all.take(k as int)),
        decreases groups@.len() - k,
    {
        proof {
            assert(all.take(k + 1).drop_last() =~= all.take(k as int));
            assert(all.take(k + 1).last() == all[k as int]);
            assert forall|t: int| 0 <= t < groups@[k as int].1@.len() implies (#[trigger] groups@[k as int].1@[t]).0 < skills@.len() by {
                assert(all[k as int].1[t] == (groups@[k as int].1@[t].0 as int, groups@[k as int].1@[t].1 as int));
                assert(valid_pos(sk, all[k as int].1[t]));
            }
            assert(all[k as int].1.len() > 0);
        }
        let names = names_of_occurrences(skills, &groups[k].1);
        assert(all[k as int].1 =~= Seq::new(groups@[k as int].1@.len(), |j: int| (groups@[k as int].1@[j].0 as int, groups@[k as int].1@[j].1 as int)));
        if names.len() >= 2 {
            let first = groups[k].1[0];
            let ghost before = matches_view(out@);
            let ghost nv = strs_view(names@);
            out.push(ExactMatch { skill: first.0, chunk: first.1, skill_names: names });
            assert(matches_view(out@) =~= before.push(((first.0 as int, first.1 as int), nv)));
        }
        k = k + 1;
    }
    assert(all.take(groups@.len() as int) =~= all);
    out
}

// ───────────────────────── word overlap ─────────────────────────

/// The distinct words of a text.
pub open spec fn word_set(s: Seq<char>) -> Set<Seq<char>> {
    words(s).to_set()
}

fn distinct_words(s: &str) -> (r: Vec<String>)
    ensures
        r@.len() <= s@.len(),
        strs_view(r@).no_duplicates(),
        strs_view(r@).to_set() == word_set(s@),
{
    let v = chars_of(s);
    let ws = split_whitespace_vec(&v);
    let ghost wv = vviews(ws@);
    let mut r: Vec<String> = Vec::new();
    let mut i: usize = 0;
    assert(strs_view(r@).to_set() =~= wv.take(0).to_set());
    while i < ws.len()
        invariant
            i <= ws@.len(),
            wv == vviews(ws@),
            wv == words(s@),
            strs_view(r@).no_duplicates(),
            strs_view(r@).to_set() == wv.take(i as int).to_set(),
        decreases ws@.len() - i,
    {
        let w = string_of(&ws[i]);
        let ghost before = strs_view(r@);
        proof {
            assert(wv.take(i + 1) =~= wv.take(i as int).push(w@));
            wv.take(i as int).lemma_push_to_set_commute(w@);
        }
        if !contains_string(r.as_slice(), w.as_str()) {
            r.push(w);
            proof {
                assert(strs_view(r@) =~= before.push(wv[i as int]));
                before.lemma_push_to_set_commute(wv[i as int]);
                assert(before.to_set().contains(wv[i as int]) == before.contains(wv[i as int]));
            }
        } else {
            proof {
                assert(before.to_set().contains(w@));
                assert(before.to_set().insert(w@) =~= before.to_set());
            }
        }
        i = i + 1;
    }
    assert(wv.take(ws@.len() as int) =~= wv);
    proof {
        strs_view(r@).unique_seq_to_set();
        wv.lemma_cardinality_of_set();
        lemma_words_len(s@);
    }
    r
}

proof fn lemma_words_state_len(s: Seq<char>)
    ensures
        words_state(s).0.len() + words_state(s).1.len() <= s.len(),
    decreases s.len(),
{
    if s.len() > 0 {
        lemma_words_state_len(s.drop_last());
    }
}

proof fn lemma_words_len(s: Seq<char>)
    ensures
        words(s).len() <= s.len(),
{
    lemma_words_state_len(s);
}

/// The number of distinct words two texts share, and the number of distinct words in
/// either: the two counts behind the Jaccard similarity of two chunks.
pub fn word_overlap(a: &str, b: &str) -> (r: (usize, usize))
    requires
        a@.len() + b@.len() <= usize::MAX,
    ensures
        r.0 == word_set(a@).intersect(word_set(b@)).len(),
        r.1 == word_set(a@).union(word_set(b@)).len(),
{
    let ua = distinct_words(a);
    let ub = distinct_words(b);
    let ghost sa = strs_view(ua@);
    let ghost sb = strs_view(ub@);
    let ghost pred = |x: Seq<char>| sb.contains(x);
    let mut inter: usize = 0;
    let mut i: usize = 0;
    proof {
        sa.unique_seq_to_set();
        sb.unique_seq_to_set();
        reveal(Seq::filter);
        assert(sa.take(0).filter(pred) =~= Seq::<Seq<char>>::empty());
    }
    while i < ua.len()
        invariant
            i <= ua@.len(),
            sa == strs_view(ua@),
            sb == strs_view(ub@),
            pred == (|x: Seq<char>| sb.contains(x)),
            inter == sa.take(i as int).filter(pred).len(),
            inter <= i,
        decreases ua@.len() - i,
    {
        proof {
            assert(sa.take(i + 1) =~= sa.take(i as int).push(sa[i as int]));
            sa.take(i as int).lemma_filter_push(sa[i as int], pred);
        }
        if contains_string(ub.as_slice(), ua[i].as_str()) {
            assert(sa[i as int] == ua@[i as int]@);
            inter = inter + 1;
        } else {
            assert(sa[i as int] == ua@[i as int]@);
        }
        i = i + 1;
    }
    proof {
        assert(sa.take(ua@.len() as int) =~= sa);
        let f = sa.filter(pred);
        assert forall|x: Seq<char>| f.contains(x) <==> sa.to_set().intersect(sb.to_set()).contains(x) by {
            if f.contains(x) {
                sa.lemma_filter_contains_rev(pred, x);
                let k = choose|k: int| 0 <= k < f.len() && f[k] == x;
                sa.lemma_filter_pred(pred, k);
            }
            if sa.contains(x) && sb.contains(x) {
                let k = choose|k: int| 0 <= k < sa.len() && sa[k] == x;
                sa.lemma_filter_contains(pred, k);
            }
        }
        assert(f.to_set() =~= sa.to_set().intersect(sb.to_set()));
        lemma_filter_no_dup(sa, pred);
        f.unique_seq_to_set();
        vstd::set_lib::lemma_set_intersect_union_lens(sa.to_set(), sb.to_set());
    }
    (inter, ua.len() + ub.len() - inter)
}

proof fn lemma_filter_no_dup(s: Seq<Seq<char>>, pred: spec_fn(Seq<char>) -> bool)
    requires
        s.no_duplicates(),
    ensures
        s.filter(pred).no_duplicates(),
    decreases s.len(),
{
    reveal(Seq::filter);
    if s.len() > 0 {
        let p = s.drop_last();
        assert(p.no_duplicates());
        lemma_filter_no_dup(p, pred);
        if pred(s.last()) {
            assert(!p.contains(s.last()));
            assert forall|x: Seq<char>| p.filter(pred).contains(x) implies p.contains(x) by {
                p.lemma_filter_contains_rev(pred, x);
            }
            assert(!p.filter(pred).contains(s.last()));
        }
    }
}

// ───────────────────────── pairs of skills ─────────────────────────

/// `a::b` with the two names in ascending order.
pub open spec fn spec_pair_key(a: Seq<char>, b: Seq<char>) -> Seq<char> {
    if seq_lt(b, a) {
        b + "::"@ + a
    } else {
        a + "::"@ + b
    }
}

/// The key under which a pair of skills is remembered, the same for either order.
pub fn pair_key(a: &str, b: &str) -> (r: String)
    ensures
        r@ == spec_pair_key(a@, b@),
{
    if str_lt(b, a) {
        concat3(b, "::", a)
    } else {
        concat3(a, "::", b)
    }
}

/// The key of a pair does not depend on the order the two names are given in.
pub proof fn law_pair_key_symmetric(a: Seq<char>, b: Seq<char>)
    ensures
        spec_pair_key(a, b) == spec_pair_key(b, a),
{
    lemma_seq_lt_total(a, b);
    lemma_seq_lt_irrefl(a);
    if seq_lt(a, b) && seq_lt(b, a) {
        lemma_seq_lt_trans(a, b, a);
    }
}

/// The keys of all pairs among `names`.
pub fn covered_pair_keys(names: &Vec<String>) -> (r: Vec<String>)
    ensures
        forall|k: Seq<char>| strs_view(r@).contains(k) <==> exists|i: int, j: int|
            0 <= i < j < names@.len() && k == spec_pair_key(names@[i]@, names@[j]@),
{
    let mut r: Vec<String> = Vec::new();
    let mut i: usize = 0;
    while i < names.len()
        invariant
            i <= names@.len(),
            forall|k: Seq<char>| strs_view(r@).contains(k) <==> exists|a: int, b: int|
                0 <= a < b < names@.len() && a < i && k == spec_pair_key(names@[a]@, names@[b]@),
        decreases names@.len() - i,
    {
        let mut j: usize = i + 1;
        while j < names.len()
            invariant
                i < names@.len(),
                i + 1 <= j <= names@.len(),
                forall|k: Seq<char>| strs_view(r@).contains(k) <==> exists|a: int, b: int|
                    0 <= a < b < names@.len() && (a < i || (a == i && b < j)) && k == spec_pair_key(names@[a]@, names@[b]@),
            decreases names@.len() - j,
        {
            let key = pair_key(names[i].as_str(), names[j].as_str());
            let ghost before = strs_view(r@);
            r.push(key);
            proof {
                assert(strs_view(r@) =~= before.push(key@));
                assert forall|k: Seq<char>| strs_view(r@).contains(k) <==> exists|a: int, b: int|
                    0 <= a < b < names@.len() && (a < i || (a == i && b < j + 1)) && k == spec_pair_key(names@[a]@, names@[b]@) by {
                    if k == key@ {
                        assert(0 <= i < j < names@.len() && k == spec_pair_key(names@[i as int]@, names@[j as int]@));
                    }
                    if strs_view(r@).contains(k) && k != key@ {
                        assert(before.contains(k));
                    }
                    if exists|a: int, b: int| 0 <= a < b < names@.len() && (a < i || (a == i && b < j + 1)) && k == spec_pair_key(names@[a]@, names@[b]@) {
                        let (a, b) = choose|a: int, b: int| 0 <= a < b < names@.len() && (a < i || (a == i && b < j + 1)) && k == spec_pair_key(names@[a]@, names@[b]@);
                        if a == i && b == j {
                            assert(strs_view(r@)[before.len() as int] == k);
                        } else {
                            assert(before.contains(k));
                            let t = choose|t: int| 0 <= t < before.len() && before[t] == k;
                            assert(strs_view(r@)[t] == k);
                        }
                    }
                }
            }
            j = j + 1;
        }
        i = i + 1;
    }
    r
}

// ───────────────────────── split plans ─────────────────────────

/// The key of a set of skills: their names sorted and joined by `,`.
pub open spec fn skills_key(names: Seq<Seq<char>>) -> Seq<char> {
    join(sort_seqs(names), ","@)
}

/// A key and the suggestions (by index) that share it.
pub type KeyGroup = (Seq<char>, Seq<int>);

/// Index of the group of key `k`, or -1.
pub open spec fn key_index(g: Seq<KeyGroup>, k: Seq<char>) -> int
    decreases g.len(),
{
    if g.len() == 0 {
        -1
    } else if g[0].0 == k {
        0
    } else {
        let r = key_index(g.drop_first(), k);
        if r < 0 {
            -1
        } else {
            r + 1
        }
    }
}

/// The suggestions `0..n` grouped by the key of their skills, in order of first appearance.
pub open spec fn key_groups(keys: Seq<Seq<char>>, n: int) -> Seq<KeyGroup>
    decreases n,
{
    if n <= 0 {
        seq![]
    } else {
        let g = key_groups(keys, n - 1);
        let i = key_index(g, keys[n - 1]);
        if 0 <= i < g.len() {
            g.update(i, (keys[n - 1], g[i].1.push(n - 1)))
        } else {
            g.push((keys[n - 1], seq![n - 1]))
        }
    }
}

/// A plan as plain values: the affected skills, the core layer's name, the suggestions.
pub type PlanView = (Seq<Seq<char>>, Seq<char>, Seq<int>);

/// The plan of a group: the skills read back from the key (split at `,`), the core layer
/// named after their common namespace, and the group's suggestions.
pub open spec fn plan_of(g: KeyGroup) -> PlanView {
    let affected = split_seq(g.0, ',');
    (affected, spec_namespace(affected) + "/core"@, g.1)
}

/// `x` placed after every plan with at least as many skills (a stable sort by size,
/// largest first).
pub open spec fn insert_by_size(x: PlanView, s: Seq<PlanView>) -> Seq<PlanView>
    decreases s.len(),
{
    if s.len() == 0 {
        seq![x]
    } else if s[0].0.len() < x.0.len() {
        seq![x] + s
    } else {
        seq![s[0]] + insert_by_size(x, s.drop_first())
    }
}

/// Plans sorted by the number of affected skills, largest first, keeping the order of
/// plans of equal size.
pub open spec fn sort_by_size(s: Seq<PlanView>) -> Seq<PlanView>
    decreases s.len(),
{
    if s.len() == 0 {
        seq![]
    } else {
        insert_by_size(s.last(), sort_by_size(s.drop_last()))
    }
}

/// The split plans for suggestions given by their skills' names: suggestions that concern
/// the same skills form one plan; plans with more skills come first.
pub open spec fn spec_split_plans(names: Seq<Seq<Seq<char>>>) -> Seq<PlanView> {
    let keys = Seq::new(names.len(), |i: int| skills_key(names[i]));
    let g = key_groups(keys, names.len() as int);
    sort_by_size(Seq::new(g.len(), |i: int| plan_of(g[i])))
}

/// A plan to move the chunks that the same skills share into one core layer.
#[derive(Debug, Clone)]
pub struct SplitGroup {
    /// The skills concerned.
    pub affected_skills: Vec<String>,
    /// The suggested core layer, `namespace/core`.
    pub suggested_core_name: String,
    /// The suggestions (by index) whose chunks go into the core layer.
    pub members: Vec<usize>,
}

/// Plans as plain values.
pub open spec fn plans_view(p: Seq<SplitGroup>) -> Seq<PlanView> {
    Seq::new(p.len(), |i: int| (strs_view(p[i].affected_skills@), p[i].suggested_core_name@,
        Seq::new(p[i].members@.len(), |j: int| p[i].members@[j] as int)))
}

/// The names of each suggestion's skills as plain values.
pub open spec fn name_lists(v: Seq<Vec<String>>) -> Seq<Seq<Seq<char>>> {
    Seq::new(v.len(), |i: int| strs_view(v[i]@))
}

proof fn lemma_key_index_at(g: Seq<KeyGroup>, k: Seq<char>, i: int)
    requires
        0 <= i < g.len(),
        g[i].0 == k,
        forall|j: int| 0 <= j < i ==> g[j].0 != k,
    ensures
        key_index(g, k) == i,
    decreases i,
{
    if i > 0 {
        lemma_key_index_at(g.drop_first(), k, i - 1);
    }
}

proof fn lemma_key_index_none(g: Seq<KeyGroup>, k: Seq<char>)
    requires
        forall|j: int| 0 <= j < g.len() ==> g[j].0 != k,
    ensures
        key_index(g, k) == -1,
    decreases g.len(),
{
    if g.len() > 0 {
        lemma_key_index_none(g.drop_first(), k);
    }
}

proof fn lemma_insert_by_size_at(x: PlanView, s: Seq<PlanView>, k: int)
    requires
        0 <= k <= s.len(),
        forall|j: int| 0 <= j < k ==> !(s[j].0.len() < x.0.len()),
        k < s.len() ==> s[k].0.len() < x.0.len(),
    ensures
        insert_by_size(x, s) == s.take(k) + seq![x] + s.skip(k),
    decreases s.len(),
{
    if s.len() == 0 {
        assert(s.take(k) + seq![x] + s.skip(k) =~= seq![x]);
    } else if k == 0 {
        assert(s.take(k) + seq![x] + s.skip(k) =~= seq![x] + s);
    } else {
        lemma_insert_by_size_at(x, s.drop_first(), k - 1);
        assert(seq![s[0]] + (s.drop_first().take(k - 1) + seq![x] + s.drop_first().skip(k - 1))
            =~= s.take(k) + seq![x] + s.skip(k));
    }
}

fn members_view_push(v: &mut Vec<usize>, x: usize)
    ensures
        Seq::new(final(v)@.len(), |j: int| final(v)@[j] as int) == Seq::new(old(v)@.len(), |j: int| old(v)@[j] as int).push(x as int),
{
    v.push(x);
    assert(Seq::new(v@.len(), |j: int| v@[j] as int) =~= Seq::new(old(v)@.len(), |j: int| old(v)@[j] as int).push(x as int));
}

/// Groups suggestions, each given by the names of the skills it concerns, into split plans:
/// one per set of skills, named after the skills' common namespace (`<namespace>/core`),
/// largest sets first.
pub fn split_plans(skill_names: &Vec<Vec<String>>) -> (r: Vec<SplitGroup>)
    requires
        forall|i: int| 0 <= i < skill_names@.len() ==>
            namespace_scan_ok(split_seq(skills_key(#[trigger] strs_view(skill_names@[i]@)), ',')),
    ensures
        plans_view(r@) == spec_split_plans(name_lists(skill_names@)),
{
    let ghost nl = name_lists(skill_names@);
    let ghost keys = Seq::new(nl.len(), |i: int| skills_key(nl[i]));
    let mut gkeys: Vec<String> = Vec::new();
    let mut gmembers: Vec<Vec<usize>> = Vec::new();
    let mut i: usize = 0;
    assert(key_groups(keys, 0) =~= Seq::<KeyGroup>::empty());
    while i < skill_names.len()
        invariant
            i <= skill_names@.len(),
            nl == name_lists(skill_names@),
            keys == Seq::new(nl.len(), |i: int| skills_key(nl[i])),
            gkeys@.len() == gmembers@.len(),
            key_groups(keys, i as int) == Seq::new(gkeys@.len(), |a: int| (gkeys@[a]@,
                Seq::new(gmembers@[a]@.len(), |j: int| gmembers@[a]@[j] as int))),
            forall|a: int| 0 <= a < gkeys@.len() ==> exists|t: int| 0 <= t < i && #[trigger] gkeys@[a]@ == keys[t],
        decreases skill_names@.len() - i,
    {
        let ghost gv = key_groups(keys, i as int);
        let sorted = sort_strings(&skill_names[i]);
        let key = join_strings(&sorted, ",");
        assert(nl[i as int] == skill_names@[i as int].deep_view());
        assert(key@ == keys[i as int]);
        let mut k: usize = 0;
        while k < gkeys.len()
            invariant
                k <= gkeys@.len(),
                gkeys@.len() == gmembers@.len(),
                gv == Seq::new(gkeys@.len(), |a: int| (gkeys@[a]@,
                    Seq::new(gmembers@[a]@.len(), |j: int| gmembers@[a]@[j] as int))),
                forall|j: int| 0 <= j < k ==> gv[j].0 != key@,
            ensures
                k <= gkeys@.len(),
                forall|j: int| 0 <= j < k ==> gv[j].0 != key@,
                k < gkeys@.len() ==> gv[k as int].0 == key@,
            decreases gkeys@.len() - k,
        {
            if str_eq(gkeys[k].as_str(), key.as_str()) {
                break;
            }
            k = k + 1;
        }
        if k < gkeys.len() && str_eq(gkeys[k].as_str(), key.as_str()) {
            proof {
                lemma_key_index_at(gv, key@, k as int);
            }
            let mut m: Vec<usize> = Vec::new();
            std::mem::swap(&mut m, &mut gmembers[k]);
            let ghost before = Seq::new(m@.len(), |j: int| m@[j] as int);
            members_view_push(&mut m, i);
            gmembers.set(k, m);
            assert(Seq::new(gkeys@.len(), |a: int| (gkeys@[a]@,
                Seq::new(gmembers@[a]@.len(), |j: int| gmembers@[a]@[j] as int)))
                =~= gv.update(k as int, (keys[i as int], gv[k as int].1.push(i as int))));
        } else {
            proof {
                lemma_key_index_none(gv, key@);
            }
            let mut m: Vec<usize> = Vec::new();
            m.push(i);
            assert(Seq::new(m@.len(), |j: int| m@[j] as int) =~= seq![i as int]);
            gkeys.push(key);
            gmembers.push(m);
            assert(Seq::new(gkeys@.len(), |a: int| (gkeys@[a]@,
                Seq::new(gmembers@[a]@.len(), |j: int| gmembers@[a]@[j] as int)))
                =~= gv.push((keys[i as int], seq![i as int])));
        }
        proof {
            assert forall|a: int| 0 <= a < gkeys@.len() implies exists|t: int| 0 <= t < i + 1 && #[trigger] gkeys@[a]@ == keys[t] by {
                if a < gv.len() {
                    assert(gkeys@[a]@ == gv[a].0);
                }
                if gkeys@[a]@ == keys[i as int] {
                } else {
                }
            }
        }
        i = i + 1;
    }
    let ghost groups = key_groups(keys, skill_names@.len() as int);
    let ghost unsorted = Seq::new(groups.len(), |a: int| plan_of(groups[a]));
    let mut plans: Vec<SplitGroup> = Vec::new();
    let mut q: usize = 0;
    assert(sort_by_size(unsorted.take(0)) =~= Seq::<PlanView>::empty());
    while q < gkeys.len()
        invariant
            q <= gkeys@.len(),
            gkeys@.len() == gmembers@.len(),
            groups == Seq::new(gkeys@.len(), |a: int| (gkeys@[a]@,
                Seq::new(gmembers@[a]@.len(), |j: int| gmembers@[a]@[j] as int))),
            unsorted == Seq::new(groups.len(), |a: int| plan_of(groups[a])),
            keys == Seq::new(nl.len(), |i: int| skills_key(nl[i])),
            nl == name_lists(skill_names@),
            forall|i: int| 0 <= i < skill_names@.len() ==>
                namespace_scan_ok(split_seq(skills_key(#[trigger] strs_view(skill_names@[i]@)), ',')),
            forall|a: int| 0 <= a < gkeys@.len() ==> exists|t: int| 0 <= t < skill_names@.len() && #[trigger] gkeys@[a]@ == keys[t],
            plans_view(plans@) == sort_by_size(unsorted.take(q as int)),
        decreases gkeys@.len() - q,
    {
        let kv = chars_of(gkeys[q].as_str());
        let parts = split_all(&kv, ',');
        let mut affected: Vec<String> = Vec::new();
        let mut t: usize = 0;
        while t < parts.len()
            invariant
                t <= parts@.len(),
                strs_view(affected@) == vviews(parts@).take(t as int),
            decreases parts@.len() - t,
        {
            let ghost before = strs_view(affected@);
            affected.push(string_of(&parts[t]));
            assert(strs_view(affected@) =~= before.push(parts@[t as int]@));
            t = t + 1;
            assert(vviews(parts@).take(t as int) =~= before.push(parts@[(t - 1) as int]@));
        }
        assert(vviews(parts@).take(parts@.len() as int) =~= vviews(parts@));
        proof {
            let w = choose|w: int| 0 <= w < skill_names@.len() && gkeys@[q as int]@ == keys[w];
            assert(nl[w] == strs_view(skill_names@[w]@));
            assert(namespace_scan_ok(split_seq(skills_key(strs_view(skill_names@[w]@)), ',')));
            assert(names_of(affected@) =~= strs_view(affected@));
        }
        let ns = infer_namespace(affected.as_slice());
        let core = concat2(ns.as_str(), "/core");
        let members = gmembers[q].clone();
        let ghost x = (strs_view(affected@), core@, Seq::new(members@.len(), |j: int| members@[j] as int));
        proof {
            assert(members@ == gmembers@[q as int]@);
            assert(x == unsorted[q as int]);
            assert(unsorted.take(q + 1).drop_last() =~= unsorted.take(q as int));
            assert(unsorted.take(q + 1).last() == unsorted[q as int]);
        }
        let ghost pv = plans_view(plans@);
        let mut p: usize = 0;
        while p < plans.len() && !(plans[p].affected_skills.len() < affected.len())
            invariant
                p <= plans@.len(),
                pv == plans_view(plans@),
                forall|j: int| 0 <= j < p ==> !(pv[j].0.len() < x.0.len()),
                x.0.len() == affected@.len(),
            decreases plans@.len() - p,
        {
            assert(pv[p as int].0.len() == plans@[p as int].affected_skills@.len());
            p = p + 1;
        }
        proof {
            if p < plans.len() {
                assert(pv[p as int].0.len() == plans@[p as int].affected_skills@.len());
            }
            lemma_insert_by_size_at(x, pv, p as int);
        }
        plans.insert(p, SplitGroup { affected_skills: affected, suggested_core_name: core, members });
        assert(plans_view(plans@) =~= pv.take(p as int) + seq![x] + pv.skip(p as int));
        q = q + 1;
    }
    assert(unsorted.take(gkeys@.len() as int) =~= unsorted);
    plans
}

/// The split plans, when inferring each plan's namespace stays on character boundaries
/// (see `namespace_scan_ok`); `None` otherwise.
pub fn try_split_plans(skill_names: &Vec<Vec<String>>) -> (r: Option<Vec<SplitGroup>>)
    ensures
        r is Some <==> forall|i: int| 0 <= i < skill_names@.len() ==>
            namespace_scan_ok(split_seq(skills_key(#[trigger] strs_view(skill_names@[i]@)), ',')),
        r matches Some(p) ==> plans_view(p@) == spec_split_plans(name_lists(skill_names@)),
{
    let mut i: usize = 0;
    while i < skill_names.len()
        invariant
            i <= skill_names@.len(),
            forall|t: int| 0 <= t < i ==>
                namespace_scan_ok(split_seq(skills_key(#[trigger] strs_view(skill_names@[t]@)), ',')),
        decreases skill_names@.len() - i,
    {
        let sorted = sort_strings(&skill_names[i]);
        let key = join_strings(&sorted, ",");
        assert(skill_names@[i as int].deep_view() == strs_view(skill_names@[i as int]@));
        let kv = chars_of(key.as_str());
        let parts = split_all(&kv, ',');
        let mut affected: Vec<String> = Vec::new();
        let mut t: usize = 0;
        while t < parts.len()
            invariant
                t <= parts@.len(),
                strs_view(affected@) == vviews(parts@).take(t as int),
            decreases parts@.len() - t,
        {
            let ghost before = strs_view(affected@);
            affected.push(string_of(&parts[t]));
            assert(strs_view(affected@) =~= before.push(parts@[t as int]@));
            t = t + 1;
            assert(vviews(parts@).take(t as int) =~= before.push(parts@[(t - 1) as int]@));
        }
        assert(vviews(parts@).take(parts@.len() as int) =~= vviews(parts@));
        assert(names_of(affected@) =~= strs_view(affected@));
        if !namespace_scan_safe(affected.as_slice()) {
            return None;
        }
        i = i + 1;
    }
    Some(split_plans(skill_names))
}

// ───────────────────────── approximate matches ─────────────────────────

/// A chunk of one skill that is similar to, without being the same as, a chunk of a later
/// skill: the first such chunk of the later skill.
#[derive(Debug, Clone, Copy)]
pub struct ApproxMatch {
    pub skill_a: usize,
    pub chunk_a: usize,
    pub skill_b: usize,
    pub chunk_b: usize,
}

/// Approximate matches as plain values.
pub open spec fn approx_view(m: Seq<ApproxMatch>) -> Seq<(int, int, int, int)> {
    Seq::new(m.len(), |k: int| (m[k].skill_a as int, m[k].chunk_a as int, m[k].skill_b as int, m[k].chunk_b as int))
}

/// Whether `similar[i][j][a][b]` says, for every two skills `i`, `j` and every chunk `a` of
/// `i` and `b` of `j`, whether the two chunks are similar enough.
pub open spec fn sim_shape(sk: Seq<(Seq<char>, Seq<Seq<char>>)>, sim: Seq<Vec<Vec<Vec<bool>>>>) -> bool {
    &&& sim.len() == sk.len()
    &&& forall|i: int| 0 <= i < sk.len() ==> #[trigger] sim[i]@.len() == sk.len()
    &&& forall|i: int, j: int| 0 <= i < sk.len() && 0 <= j < sk.len() ==> #[trigger] sim[i]@[j]@.len() == sk[i].1.len()
    &&& forall|i: int, j: int, a: int|
        0 <= i < sk.len() && 0 <= j < sk.len() && 0 <= a < sk[i].1.len() ==> #[trigger] sim[i]@[j]@[a]@.len() == sk[j].1.len()
}

/// Chunk `a` of skill `i` and chunk `b` of skill `j` differ in fingerprint and are similar.
pub open spec fn approx_cond(sk: Seq<(Seq<char>, Seq<Seq<char>>)>, sim: Seq<Vec<Vec<Vec<bool>>>>, i: int, a: int, j: int, b: int) -> bool {
    spec_fingerprint(sk[i].1[a]) != spec_fingerprint(sk[j].1[b]) && sim[i]@[j]@[a]@[b]
}

/// The first chunk of skill `j`, from `b` on, that matches chunk `a` of skill `i`, or -1.
pub open spec fn first_similar(sk: Seq<(Seq<char>, Seq<Seq<char>>)>, sim: Seq<Vec<Vec<Vec<bool>>>>, i: int, a: int, j: int, b: int) -> int
    decreases sk[j].1.len() - b,
{
    if b < 0 || b >= sk[j].1.len() {
        -1
    } else if approx_cond(sk, sim, i, a, j, b) {
        b
    } else {
        first_similar(sk, sim, i, a, j, b + 1)
    }
}

/// For chunks `0..n` of skill `i`, in order, the first matching chunk of skill `j`, where
/// there is one.
pub open spec fn pair_matches(sk: Seq<(Seq<char>, Seq<Seq<char>>)>, sim: Seq<Vec<Vec<Vec<bool>>>>, i: int, j: int, n: int) -> Seq<(int, int, int, int)>
    decreases n,
{
    if n <= 0 {
        seq![]
    } else {
        let p = pair_matches(sk, sim, i, j, n - 1);
        let b = first_similar(sk, sim, i, n - 1, j, 0);
        if b >= 0 {
            p.push((i, n - 1, j, b))
        } else {
            p
        }
    }
}

/// One pair of skills: skipped when its key is covered; else its matches are added and,
/// when there are any, its key becomes covered.
pub open spec fn approx_pair_step(
    sk: Seq<(Seq<char>, Seq<Seq<char>>)>,
    sim: Seq<Vec<Vec<Vec<bool>>>>,
    i: int,
    j: int,
    st: (Seq<Seq<char>>, Seq<(int, int, int, int)>),
) -> (Seq<Seq<char>>, Seq<(int, int, int, int)>) {
    let key = spec_pair_key(sk[i].0, sk[j].0);
    if st.0.contains(key) {
        st
    } else {
        let ms = pair_matches(sk, sim, i, j, sk[i].1.len() as int);
        if ms.len() > 0 {
            (st.0.push(key), st.1 + ms)
        } else {
            st
        }
    }
}

/// The pairs `(i, j)` for `i < j < e`, in order.
pub open spec fn approx_cols(
    sk: Seq<(Seq<char>, Seq<Seq<char>>)>,
    sim: Seq<Vec<Vec<Vec<bool>>>>,
    i: int,
    e: int,
    st: (Seq<Seq<char>>, Seq<(int, int, int, int)>),
) -> (Seq<Seq<char>>, Seq<(int, int, int, int)>)
    decreases e - i,
{
    if e <= i + 1 {
        st
    } else {
        approx_pair_step(sk, sim, i, e - 1, approx_cols(sk, sim, i, e - 1, st))
    }
}

/// The pairs of skills whose first skill is below `e`, in order.
pub open spec fn approx_rows(
    sk: Seq<(Seq<char>, Seq<Seq<char>>)>,
    sim: Seq<Vec<Vec<Vec<bool>>>>,
    e: int,
    st: (Seq<Seq<char>>, Seq<(int, int, int, int)>),
) -> (Seq<Seq<char>>, Seq<(int, int, int, int)>)
    decreases e,
{
    if e <= 0 {
        st
    } else {
        approx_cols(sk, sim, e - 1, sk.len() as int, approx_rows(sk, sim, e - 1, st))
    }
}

/// The approximate matches over all pairs of skills, given the keys of the pairs already
/// covered by exact matches.
pub open spec fn spec_approx_matches(
    sk: Seq<(Seq<char>, Seq<Seq<char>>)>,
    sim: Seq<Vec<Vec<Vec<bool>>>>,
    covered: Seq<Seq<char>>,
) -> Seq<(int, int, int, int)> {
    approx_rows(sk, sim, sk.len() as int, (covered, seq![])).1
}

fn first_similar_exec(skills: &[SkillContent], similar: &Vec<Vec<Vec<Vec<bool>>>>, i: usize, a: usize, j: usize) -> (r: Option<usize>)
    requires
        sim_shape(skills_view(skills@), similar@),
        i < skills@.len(),
        j < skills@.len(),
        a < skills@[i as int].chunks@.len(),
    ensures
        match r {
            Some(b) => first_similar(skills_view(skills@), similar@, i as int, a as int, j as int, 0) == b as int,
            None => first_similar(skills_view(skills@), similar@, i as int, a as int, j as int, 0) == -1,
        },
{
    let ghost sk = skills_view(skills@);
    let ghost sim = similar@;
    let fa = skills[i].chunks[a].fingerprint();
    assert(sk[i as int].1[a as int] == skills@[i as int].chunks@[a as int].body@);
    assert(sim[i as int]@[j as int]@.len() == sk[i as int].1.len());
    assert(sim[i as int]@[j as int]@[a as int]@.len() == sk[j as int].1.len());
    let n = skills[j].chunks.len();
    let mut b: usize = 0;
    while b < n
        invariant
            sk == skills_view(skills@),
            sim == similar@,
            sim_shape(sk, sim),
            i < sk.len(),
            j < sk.len(),
            a < sk[i as int].1.len(),
            n == sk[j as int].1.len(),
            n == skills@[j as int].chunks@.len(),
            sim[i as int]@[j as int]@[a as int]@.len() == n,
            fa@ == spec_fingerprint(sk[i as int].1[a as int]),
            b <= n,
            first_similar(sk, sim, i as int, a as int, j as int, 0) == first_similar(sk, sim, i as int, a as int, j as int, b as int),
        decreases n - b,
    {
        let fb = skills[j].chunks[b].fingerprint();
        assert(sk[j as int].1[b as int] == skills@[j as int].chunks@[b as int].body@);
        if !str_eq(fa.as_str(), fb.as_str()) && similar[i][j][a][b] {
            return Some(b);
        }
        b = b + 1;
    }
    None
}

fn pair_matches_exec(skills: &[SkillContent], similar: &Vec<Vec<Vec<Vec<bool>>>>, i: usize, j: usize) -> (r: Vec<ApproxMatch>)
    requires
        sim_shape(skills_view(skills@), similar@),
        i < skills@.len(),
        j < skills@.len(),
    ensures
        approx_view(r@) == pair_matches(skills_view(skills@), similar@, i as int, j as int, skills_view(skills@)[i as int].1.len() as int),
{
    let ghost sk = skills_view(skills@);
    let n = skills[i].chunks.len();
    assert(n == sk[i as int].1.len());
    let mut r: Vec<ApproxMatch> = Vec::new();
    let mut a: usize = 0;
    assert(approx_view(r@) =~= pair_matches(sk, similar@, i as int, j as int, 0));
    while a < n
        invariant
            sk == skills_view(skills@),
            sim_shape(sk, similar@),
            i < skills@.len(),
            j < skills@.len(),
            n == skills@[i as int].chunks@.len(),
            n == sk[i as int].1.len(),
            a <= n,
            approx_view(r@) == pair_matches(sk, similar@, i as int, j as int, a as int),
        decreases n - a,
    {
        let ghost before = approx_view(r@);
        match first_similar_exec(skills, similar, i, a, j) {
            Some(b) => {
                r.push(ApproxMatch { skill_a: i, chunk_a: a, skill_b: j, chunk_b: b });
                assert(approx_view(r@) =~= before.push((i as int, a as int, j as int, b as int)));
            },
            None => {},
        }
        a = a + 1;
    }
    r
}

/// The approximate matches between skills, pair by pair (`i < j`, in order): a pair whose
/// key (`pair_key` of the two names) is in `covered` (the pairs that exact matches already
/// cover, and those found here) is skipped; otherwise each chunk of skill `i`, in order,
/// is matched with the first chunk of skill `j` that has another fingerprint and that
/// `similar[i][j][a][b]` calls similar. How similar two chunks must be is decided by the
/// caller.
pub fn approx_matches(skills: &[SkillContent], similar: &Vec<Vec<Vec<Vec<bool>>>>, covered: &Vec<String>) -> (r: Vec<ApproxMatch>)
    requires
        sim_shape(skills_view(skills@), similar@),
    ensures
        approx_view(r@) == spec_approx_matches(skills_view(skills@), similar@, strs_view(covered@)),
{
    let ghost sk = skills_view(skills@);
    let ghost sim = similar@;
    let mut cov: Vec<String> = Vec::new();
    let mut t: usize = 0;
    while t < covered.len()
        invariant
            t <= covered@.len(),
            strs_view(cov@) == strs_view(covered@).take(t as int),
        decreases covered@.len() - t,
    {
        let ghost before = strs_view(cov@);
        cov.push(covered[t].clone());
        assert(strs_view(cov@) =~= before.push(covered@[t as int]@));
        assert(strs_view(covered@).take(t + 1) =~= strs_view(covered@).take(t as int).push(covered@[t as int]@));
        t = t + 1;
    }
    assert(strs_view(covered@).take(covered@.len() as int) =~= strs_view(covered@));
    let ghost init = (strs_view(covered@), Seq::<(int, int, int, int)>::empty());
    let mut out: Vec<ApproxMatch> = Vec::new();
    assert(approx_view(out@) =~= Seq::<(int, int, int, int)>::empty());
    let n = skills.len();
    let mut i: usize = 0;
    while i < n
        invariant
            sk == skills_view(skills@),
            sim == similar@,
            sim_shape(sk, sim),
            n == skills@.len(),
            n == sk.len(),
            i <= n,
            (strs_view(cov@), approx_view(out@)) == approx_rows(sk, sim, i as int, init),
        decreases n - i,
    {
        let ghost row_start = approx_rows(sk, sim, i as int, init);
        let mut j: usize = i + 1;
        while j < n
            invariant
                sk == skills_view(skills@),
                sim == similar@,
                sim_shape(sk, sim),
                n == skills@.len(),
                n == sk.len(),
                i < n,
                i + 1 <= j <= n,
                (strs_view(cov@), approx_view(out@)) == approx_cols(sk, sim, i as int, j as int, row_start),
            decreases n - j,
        {
            let key = pair_key(skills[i].name.as_str(), skills[j].name.as_str());
            assert(sk[i as int].0 == skills@[i as int].name@);
            assert(sk[j as int].0 == skills@[j as int].name@);
            if !contains_string(cov.as_slice(), key.as_str()) {
                let ms = pair_matches_exec(skills, similar, i, j);
                if ms.len() > 0 {
                    let ghost cb = strs_view(cov@);
                    cov.push(key);
                    assert(strs_view(cov@) =~= cb.push(spec_pair_key(sk[i as int].0, sk[j as int].0)));
                    let mut q: usize = 0;
                    let ghost ob = approx_view(out@);
                    while q < ms.len()
                        invariant
                            q <= ms@.len(),
                            approx_view(out@) == ob + approx_view(ms@).take(q as int),
                        decreases ms@.len() - q,
                    {
                        let ghost b2 = approx_view(out@);
                        out.push(ms[q]);
                        assert(approx_view(out@) =~= b2.push(approx_view(ms@)[q as int]));
                        assert(approx_view(ms@).take(q + 1) =~= approx_view(ms@).take(q as int).push(approx_view(ms@)[q as int]));
                        q = q + 1;
                    }
                    assert(approx_view(ms@).take(ms@.len() as int) =~= approx_view(ms@));
                }
            }
            j = j + 1;
        }
        i = i + 1;
    }
    out
}

} // verus!
