//! Character-level text utilities over `Seq<char>` views: whitespace,
//! trimming, line splitting, searching, decimal rendering and ordering.
use vstd::prelude::*;
use vstd::string::StringExecFns;

verus! {

// ───────────────────────── conversions ─────────────────────────

/// The characters of a string slice, collected into a vector.
pub fn chars_of(s: &str) -> (v: Vec<char>)
    ensures
        v@ == s@,
{
    let mut v: Vec<char> = Vec::new();
    for c in it: s.chars()
        invariant
            v@ == it.seq().take(it.index() as int),
    {
        v.push(c);
    }
    v
}

/// Builds a `String` from characters (std `FromIterator<char>` for `String`).
#[verifier::external_body]
pub(crate) fn string_of(v: &Vec<char>) -> (s: String)
    ensures
        s@ == v@,
{
    String::from_iter(v.iter())
}

/// Builds a `String` from a string slice.
pub fn owned(s: &str) -> (r: String)
    ensures
        r@ == s@,
{
    String::from_str(s)
}

/// Concatenation of two strings.
pub fn concat2(a: &str, b: &str) -> (r: String)
    ensures
        r@ == a@ + b@,
{
    let mut r = String::from_str(a);
    r.append(b);
    r
}

/// Concatenation of three strings.
pub fn concat3(a: &str, b: &str, c: &str) -> (r: String)
    ensures
        r@ == a@ + b@ + c@,
{
    let mut r = String::from_str(a);
    r.append(b);
    r.append(c);
    r
}

/// Copies `v[from..to]` into a fresh vector.
pub fn sub_vec(v: &Vec<char>, from: usize, to: usize) -> (r: Vec<char>)
    requires
        from <= to <= v.len(),
    ensures
        r@ == v@.subrange(from as int, to as int),
{
    let mut r: Vec<char> = Vec::new();
    let mut i = from;
    while i < to
        invariant
            from <= i <= to <= v.len(),
            r@ == v@.subrange(from as int, i as int),
        decreases to - i,
    {
        r.push(v[i]);
        i = i + 1;
        assert(r@ =~= v@.subrange(from as int, i as int));
    }
    r
}

/// Appends all characters of `src` to `dst`.
pub fn push_all(dst: &mut Vec<char>, src: &Vec<char>)
    ensures
        final(dst)@ == old(dst)@ + src@,
{
    let mut k: usize = 0;
    while k < src.len()
        invariant
            k <= src.len(),
            dst@ == old(dst)@ + src@.take(k as int),
        decreases src.len() - k,
    {
        dst.push(src[k]);
        k = k + 1;
        assert(dst@ =~= old(dst)@ + src@.take(k as int));
    }
    assert(src@.take(k as int) =~= src@);
}

/// Equality of two character vectors.
pub fn vec_eq(a: &Vec<char>, b: &Vec<char>) -> (r: bool)
    ensures
        r == (a@ == b@),
{
    if a.len() != b.len() {
        return false;
    }
    let mut i: usize = 0;
    while i < a.len()
        invariant
            a.len() == b.len(),
            i <= a.len(),
            forall|j: int| 0 <= j < i ==> a@[j] == b@[j],
        decreases a.len() - i,
    {
        if a[i] != b[i] {
            return false;
        }
        i = i + 1;
    }
    assert(a@ =~= b@);
    true
}

/// Equality of two string slices.
pub fn str_eq(a: &str, b: &str) -> (r: bool)
    ensures
        r == (a@ == b@),
{
    let va = chars_of(a);
    let vb = chars_of(b);
    vec_eq(&va, &vb)
}

// ───────────────────────── case mapping and debug quoting ─────────────────────────

/// Whether every character is ASCII.
pub open spec fn all_ascii(s: Seq<char>) -> bool {
    forall|i: int| 0 <= i < s.len() ==> (s[i] as u32) < 128
}

/// ASCII upper-casing of one character.
pub open spec fn ascii_upper(c: char) -> char {
    if 'a' <= c <= 'z' {
        ((c as u32) - 32) as char
    } else {
        c
    }
}

/// ASCII lower-casing of one character.
pub open spec fn ascii_lower(c: char) -> char {
    if 'A' <= c <= 'Z' {
        ((c as u32) + 32) as char
    } else {
        c
    }
}

/// What `str::to_uppercase` returns (Unicode case mapping).
pub uninterp spec fn upper(s: Seq<char>) -> Seq<char>;

/// What `str::to_lowercase` returns (Unicode case mapping, with final-sigma handling).
pub uninterp spec fn lower(s: Seq<char>) -> Seq<char>;

/// What `format!("{:?}", s)` returns for a string slice (quoted, escaped).
pub uninterp spec fn debug_str(s: Seq<char>) -> Seq<char>;

/// `str::to_uppercase`. The result is a function of the text alone; on ASCII text it is the
/// character-wise ASCII upper-casing. What it is on other text is left to Unicode's tables.
#[verifier::external_body]
pub(crate) fn to_uppercase(s: &str) -> (r: String)
    ensures
        r@ == upper(s@),
        all_ascii(s@) ==> r@ == s@.map_values(|c: char| ascii_upper(c)),
{
    s.to_uppercase()
}

/// `str::to_lowercase`. The result is a function of the text alone; on ASCII text it is the
/// character-wise ASCII lower-casing. What it is on other text is left to Unicode's tables.
#[verifier::external_body]
pub(crate) fn to_lowercase(s: &str) -> (r: String)
    ensures
        r@ == lower(s@),
        all_ascii(s@) ==> r@ == s@.map_values(|c: char| ascii_lower(c)),
{
    s.to_lowercase()
}

/// `format!("{:?}", s)`: the debug rendering of a string slice, a function of the text alone.
#[verifier::external_body]
pub(crate) fn debug_quoted(s: &str) -> (r: String)
    ensures
        r@ == debug_str(s@),
{
    format!("{:?}", s)
}

/// What `char::is_alphanumeric` returns (Unicode Alphabetic or Numeric).
pub uninterp spec fn char_alnum(c: char) -> bool;

/// `char::is_alphanumeric`: a function of the character alone; on ASCII it accepts exactly
/// the letters and digits. What it is elsewhere is left to Unicode's tables.
#[verifier::external_body]
pub(crate) fn is_alphanumeric(c: char) -> (b: bool)
    ensures
        b == char_alnum(c),
        (c as u32) < 128 ==> (b <==> ('a' <= c <= 'z' || 'A' <= c <= 'Z' || '0' <= c <= '9')),
{
    c.is_alphanumeric()
}

// ───────────────────────── UTF-8 length ─────────────────────────

/// Bytes of the UTF-8 encoding of one character.
pub open spec fn utf8_width(c: char) -> nat {
    let u = c as u32;
    if u < 0x80 {
        1
    } else if u < 0x800 {
        2
    } else if u < 0x10000 {
        3
    } else {
        4
    }
}

/// Bytes of the UTF-8 encoding of a text (what `str::len` returns).
pub open spec fn utf8_len(s: Seq<char>) -> nat
    decreases s.len(),
{
    if s.len() == 0 {
        0
    } else {
        utf8_len(s.drop_last()) + utf8_width(s.last())
    }
}

proof fn lemma_utf8_len_prefix(s: Seq<char>, i: int)
    requires
        0 <= i <= s.len(),
    ensures
        utf8_len(s.take(i)) <= utf8_len(s),
    decreases s.len() - i,
{
    if i < s.len() {
        lemma_utf8_len_prefix(s.drop_last(), i);
        assert(s.drop_last().take(i) =~= s.take(i));
    } else {
        assert(s.take(i) =~= s);
    }
}

/// Whether the UTF-8 encoding of `v` is longer than `limit` bytes.
pub fn utf8_len_exceeds(v: &Vec<char>, limit: usize) -> (b: bool)
    ensures
        b == (utf8_len(v@) > limit),
{
    let mut total: usize = 0;
    let mut i: usize = 0;
    assert(v@.take(0) =~= Seq::<char>::empty());
    while i < v.len()
        invariant
            i <= v.len(),
            total == utf8_len(v@.take(i as int)),
            total <= limit,
        decreases v.len() - i,
    {
        let u = v[i] as u32;
        let w: usize = if u < 0x80 { 1 } else if u < 0x800 { 2 } else if u < 0x10000 { 3 } else { 4 };
        proof {
            assert(v@.take(i + 1).drop_last() =~= v@.take(i as int));
            assert(v@.take(i + 1).last() == v@[i as int]);
        }
        if w > limit - total {
            proof {
                lemma_utf8_len_prefix(v@, i + 1);
            }
            return true;
        }
        total = total + w;
        i = i + 1;
    }
    assert(v@.take(i as int) =~= v@);
    false
}

// ───────────────────────── whitespace and trimming ─────────────────────────

/// Unicode `White_Space`, exactly the set that `char::is_whitespace` accepts.
pub open spec fn is_ws(c: char) -> bool {
    let u = c as u32;
    ||| 9 <= u <= 13
    ||| u == 32
    ||| u == 0x85
    ||| u == 0xA0
    ||| u == 0x1680
    ||| 0x2000 <= u <= 0x200A
    ||| u == 0x2028
    ||| u == 0x2029
    ||| u == 0x202F
    ||| u == 0x205F
    ||| u == 0x3000
}

/// `char::is_whitespace`.
pub fn is_whitespace(c: char) -> (b: bool)
    ensures
        b == is_ws(c),
{
    let u = c as u32;
    (9 <= u && u <= 13) || u == 32 || u == 0x85 || u == 0xA0 || u == 0x1680 || (0x2000 <= u
        && u <= 0x200A) || u == 0x2028 || u == 0x2029 || u == 0x202F || u == 0x205F || u
        == 0x3000
}

/// Leading whitespace removed.
pub open spec fn trim_start(s: Seq<char>) -> Seq<char>
    decreases s.len(),
{
    if s.len() > 0 && is_ws(s[0]) {
        trim_start(s.drop_first())
    } else {
        s
    }
}

/// Trailing whitespace removed.
pub open spec fn trim_end(s: Seq<char>) -> Seq<char>
    decreases s.len(),
{
    if s.len() > 0 && is_ws(s.last()) {
        trim_end(s.drop_last())
    } else {
        s
    }
}

/// Leading and trailing whitespace removed (`str::trim`).
pub open spec fn trim(s: Seq<char>) -> Seq<char> {
    trim_end(trim_start(s))
}

/// `trim_start` drops a prefix and leaves no leading whitespace.
pub proof fn lemma_trim_start_shape(s: Seq<char>) -> (k: int)
    ensures
        0 <= k <= s.len(),
        trim_start(s) == s.skip(k),
        trim_start(s).len() > 0 ==> !is_ws(trim_start(s)[0]),
    decreases s.len(),
{
    if s.len() > 0 && is_ws(s[0]) {
        let k2 = lemma_trim_start_shape(s.drop_first());
        assert(s.drop_first().skip(k2) =~= s.skip(k2 + 1));
        k2 + 1
    } else {
        assert(s.skip(0) =~= s);
        0
    }
}

/// `trim_end` keeps a prefix and leaves no trailing whitespace.
pub proof fn lemma_trim_end_shape(s: Seq<char>) -> (k: int)
    ensures
        0 <= k <= s.len(),
        trim_end(s) == s.take(k),
        trim_end(s).len() > 0 ==> !is_ws(trim_end(s).last()),
    decreases s.len(),
{
    if s.len() > 0 && is_ws(s.last()) {
        let k2 = lemma_trim_end_shape(s.drop_last());
        assert(s.drop_last().take(k2) =~= s.take(k2));
        k2
    } else {
        assert(s.take(s.len() as int) =~= s);
        s.len() as int
    }
}

/// Trimming twice is trimming once.
pub proof fn lemma_trim_idempotent(s: Seq<char>)
    ensures
        trim(trim(s)) == trim(s),
{
    let u = trim_start(s);
    lemma_trim_start_shape(s);
    lemma_trim_end_shape(u);
    let t = trim_end(u);
    if t.len() > 0 {
        assert(t[0] == u[0]);
        assert(!is_ws(t[0]));
        assert(!is_ws(t.last()));
    }
    assert(trim_start(t) == t);
    assert(trim_end(t) == t);
}

/// Every character of the trimmed text is a character of the text, at an offset.
pub proof fn lemma_trim_within(s: Seq<char>) -> (k: int)
    ensures
        0 <= k,
        k + trim(s).len() <= s.len(),
        forall|j: int| 0 <= j < trim(s).len() ==> #[trigger] trim(s)[j] == s[k + j],
{
    let k1 = lemma_trim_start_shape(s);
    let u = trim_start(s);
    lemma_trim_end_shape(u);
    k1
}

pub proof fn lemma_trim_start_skip(s: Seq<char>, i: int)
    requires
        0 <= i <= s.len(),
        forall|j: int| 0 <= j < i ==> is_ws(s[j]),
    ensures
        trim_start(s) == trim_start(s.skip(i)),
    decreases i,
{
    if i > 0 {
        lemma_trim_start_skip(s.drop_first(), i - 1);
        assert(s.drop_first().skip(i - 1) =~= s.skip(i));
    } else {
        assert(s.skip(0) =~= s);
    }
}

pub proof fn lemma_trim_end_take(s: Seq<char>, k: int)
    requires
        0 <= k <= s.len(),
        forall|j: int| k <= j < s.len() ==> is_ws(s[j]),
    ensures
        trim_end(s) == trim_end(s.take(k)),
    decreases s.len() - k,
{
    if k < s.len() {
        lemma_trim_end_take(s.drop_last(), k);
        assert(s.drop_last().take(k) =~= s.take(k));
    } else {
        assert(s.take(k) =~= s);
    }
}

/// Trims whitespace on both ends of a character vector.
pub fn trim_vec(v: &Vec<char>) -> (r: Vec<char>)
    ensures
        r@ == trim(v@),
{
    let mut i: usize = 0;
    while i < v.len() && is_whitespace(v[i])
        invariant
            i <= v.len(),
            forall|j: int| 0 <= j < i ==> is_ws(v@[j]),
        decreases v.len() - i,
    {
        i = i + 1;
    }
    proof {
        lemma_trim_start_skip(v@, i as int);
    }
    let mut k: usize = v.len();
    while k > i && is_whitespace(v[k - 1])
        invariant
            i <= k <= v.len(),
            forall|j: int| k <= j < v.len() ==> is_ws(v@[j]),
        decreases k,
    {
        k = k - 1;
    }
    let ghost t = v@.skip(i as int);
    proof {
        assert(trim_start(t) == t);
        lemma_trim_end_take(t, (k - i) as int);
        assert(t.take((k - i) as int) =~= v@.subrange(i as int, k as int));
        let u = v@.subrange(i as int, k as int);
        if u.len() > 0 {
            assert(u.last() == v@[k - 1]);
        }
    }
    sub_vec(v, i, k)
}

/// Trims trailing whitespace of a character vector (`str::trim_end`).
pub fn trim_end_vec(v: &Vec<char>) -> (r: Vec<char>)
    ensures
        r@ == trim_end(v@),
{
    let mut k: usize = v.len();
    while k > 0 && is_whitespace(v[k - 1])
        invariant
            k <= v.len(),
            forall|j: int| k <= j < v.len() ==> is_ws(v@[j]),
        decreases k,
    {
        k = k - 1;
    }
    proof {
        lemma_trim_end_take(v@, k as int);
        let u = v@.take(k as int);
        if u.len() > 0 {
            assert(u.last() == v@[k - 1]);
        }
    }
    let r = sub_vec(v, 0, k);
    assert(r@ =~= v@.take(k as int));
    r
}

/// `str::trim` as an owned vector of characters.
pub fn trim_str(s: &str) -> (r: Vec<char>)
    ensures
        r@ == trim(s@),
{
    let v = chars_of(s);
    trim_vec(&v)
}

// ───────────────────────── searching ─────────────────────────

/// Index of the first occurrence of `c` in `s`, or -1.
pub open spec fn find_first(s: Seq<char>, c: char) -> int
    decreases s.len(),
{
    if s.len() == 0 {
        -1
    } else if s[0] == c {
        0
    } else {
        let r = find_first(s.drop_first(), c);
        if r < 0 {
            -1
        } else {
            r + 1
        }
    }
}

pub proof fn lemma_find_first_at(s: Seq<char>, c: char, i: int)
    requires
        0 <= i < s.len(),
        s[i] == c,
        forall|j: int| 0 <= j < i ==> s[j] != c,
    ensures
        find_first(s, c) == i,
    decreases i,
{
    if i > 0 {
        lemma_find_first_at(s.drop_first(), c, i - 1);
    }
}

pub proof fn lemma_find_first_none(s: Seq<char>, c: char)
    requires
        forall|j: int| 0 <= j < s.len() ==> s[j] != c,
    ensures
        find_first(s, c) == -1,
    decreases s.len(),
{
    if s.len() > 0 {
        lemma_find_first_none(s.drop_first(), c);
    }
}

pub proof fn lemma_find_first_props(s: Seq<char>, c: char)
    ensures
        -1 <= find_first(s, c) < s.len(),
        find_first(s, c) >= 0 ==> s[find_first(s, c)] == c,
        forall|j: int| 0 <= j < s.len() && (find_first(s, c) < 0 || j < find_first(s, c)) ==> s[j] != c,
    decreases s.len(),
{
    if s.len() > 0 {
        lemma_find_first_props(s.drop_first(), c);
        assert forall|j: int| 0 <= j < s.len() && (find_first(s, c) < 0 || j < find_first(s, c)) implies s[j] != c by {
            if j > 0 {
                assert(s[j] == s.drop_first()[j - 1]);
            }
        }
    }
}

/// Splitting `a + [c] + b` at its first `c` gives `a` and `b` when `a` holds no `c`.
pub proof fn lemma_split_once_concat(a: Seq<char>, c: char, b: Seq<char>)
    requires
        !a.contains(c),
    ensures
        split_once(a + seq![c] + b, c) == Some((a, b)),
{
    let s = a + seq![c] + b;
    assert forall|j: int| 0 <= j < a.len() implies s[j] != c by {
        assert(s[j] == a[j]);
    }
    lemma_find_first_at(s, c, a.len() as int);
    assert(s.take(a.len() as int) =~= a);
    assert(s.skip(a.len() as int + 1) =~= b);
}

/// A text without `c` does not split at `c`.
pub proof fn lemma_split_once_none(a: Seq<char>, c: char)
    requires
        !a.contains(c),
    ensures
        split_once(a, c) is None,
{
    lemma_find_first_none(a, c);
}

/// First index `>= from` holding `c`; the result is relative to the whole vector.
pub fn find_char_from(v: &Vec<char>, c: char, from: usize) -> (r: Option<usize>)
    requires
        from <= v.len(),
    ensures
        match r {
            Some(i) => from <= i < v.len() && find_first(v@.skip(from as int), c) == i - from,
            None => find_first(v@.skip(from as int), c) == -1,
        },
{
    let mut i = from;
    while i < v.len()
        invariant
            from <= i <= v.len(),
            forall|j: int| from <= j < i ==> v@[j] != c,
        decreases v.len() - i,
    {
        if v[i] == c {
            proof {
                lemma_find_first_at(v@.skip(from as int), c, i - from);
            }
            return Some(i);
        }
        i = i + 1;
    }
    proof {
        lemma_find_first_none(v@.skip(from as int), c);
    }
    None
}

/// Splits at the first occurrence of `c` (`splitn(2, c)` / `split_once`).
pub open spec fn split_once(s: Seq<char>, c: char) -> Option<(Seq<char>, Seq<char>)> {
    let i = find_first(s, c);
    if i < 0 {
        None
    } else {
        Some((s.take(i), s.skip(i + 1)))
    }
}

/// `splitn(2, c)` on characters.
pub fn split_once_vec(v: &Vec<char>, c: char) -> (r: Option<(Vec<char>, Vec<char>)>)
    ensures
        match split_once(v@, c) {
            Some((a, b)) => r matches Some((x, y)) && x@ == a && y@ == b,
            None => r is None,
        },
{
    match find_char_from(v, c, 0) {
        Some(i) => {
            assert(v@.skip(0) =~= v@);
            let a = sub_vec(v, 0, i);
            let b = sub_vec(v, i + 1, v.len());
            assert(a@ =~= v@.take(i as int));
            assert(b@ =~= v@.skip(i + 1));
            Some((a, b))
        },
        None => {
            assert(v@.skip(0) =~= v@);
            None
        },
    }
}

/// `str::split(c)`: every piece between occurrences of `c` (at least one piece).
pub open spec fn split_seq(s: Seq<char>, c: char) -> Seq<Seq<char>>
    decreases s.len(),
{
    let i = find_first(s, c);
    if i < 0 {
        seq![s]
    } else {
        proof {
            lemma_find_first_props(s, c);
        }
        seq![s.take(i)] + split_seq(s.skip(i + 1), c)
    }
}

/// `split(c)` on characters.
pub fn split_all(v: &Vec<char>, c: char) -> (r: Vec<Vec<char>>)
    ensures
        vviews(r@) == split_seq(v@, c),
{
    let mut r: Vec<Vec<char>> = Vec::new();
    let mut pos: usize = 0;
    assert(v@.skip(0) =~= v@);
    assert(vviews(r@) + split_seq(v@, c) =~= split_seq(v@, c));
    loop
        invariant
            pos <= v.len(),
            split_seq(v@, c) == vviews(r@) + split_seq(v@.skip(pos as int), c),
        decreases v.len() - pos,
    {
        let ghost rest = v@.skip(pos as int);
        let ghost old_r = vviews(r@);
        proof {
            lemma_find_first_props(rest, c);
        }
        match find_char_from(v, c, pos) {
            Some(i) => {
                let piece = sub_vec(v, pos, i);
                proof {
                    assert(rest.take(i - pos) =~= piece@);
                    assert(rest.skip(i - pos + 1) =~= v@.skip(i + 1));
                }
                r.push(piece);
                proof {
                    assert(vviews(r@) =~= old_r.push(piece@));
                    assert(old_r + (seq![piece@] + split_seq(v@.skip(i + 1), c)) =~= old_r.push(
                        piece@,
                    ) + split_seq(v@.skip(i + 1), c));
                }
                pos = i + 1;
            },
            None => {
                let piece = sub_vec(v, pos, v.len());
                proof {
                    assert(piece@ =~= rest);
                }
                r.push(piece);
                proof {
                    assert(vviews(r@) =~= old_r.push(piece@));
                    assert(old_r + seq![rest] =~= old_r.push(piece@));
                }
                return r;
            },
        }
    }
}

/// Whether `p` is a prefix of `s`.
pub open spec fn has_prefix(s: Seq<char>, p: Seq<char>) -> bool {
    p.len() <= s.len() && s.take(p.len() as int) == p
}

/// `starts_with` on characters.
pub fn starts_with_vec(v: &Vec<char>, p: &Vec<char>) -> (r: bool)
    ensures
        r == has_prefix(v@, p@),
{
    if p.len() > v.len() {
        return false;
    }
    let mut i: usize = 0;
    while i < p.len()
        invariant
            p.len() <= v.len(),
            i <= p.len(),
            forall|j: int| 0 <= j < i ==> v@[j] == p@[j],
        decreases p.len() - i,
    {
        if v[i] != p[i] {
            assert(v@.take(p.len() as int)[i as int] != p@[i as int]);
            return false;
        }
        i = i + 1;
    }
    assert(v@.take(p.len() as int) =~= p@);
    true
}

/// Whether `p` occurs in `s` at position `i`.
pub open spec fn occurs_at(s: Seq<char>, p: Seq<char>, i: int) -> bool {
    0 <= i && i + p.len() <= s.len() && s.subrange(i, i + p.len()) == p
}

/// Whether `p` occurs anywhere in `s` (`str::contains`).
pub open spec fn contains_seq(s: Seq<char>, p: Seq<char>) -> bool {
    exists|i: int| occurs_at(s, p, i)
}

fn occurs_at_exec(v: &Vec<char>, p: &Vec<char>, i: usize) -> (r: bool)
    requires
        i + p.len() <= v.len(),
    ensures
        r == occurs_at(v@, p@, i as int),
{
    let mut k: usize = 0;
    while k < p.len()
        invariant
            i + p.len() <= v.len(),
            k <= p.len(),
            forall|j: int| 0 <= j < k ==> v@[i + j] == p@[j],
        decreases p.len() - k,
    {
        if v[i + k] != p[k] {
            assert(v@.subrange(i as int, i + p.len())[k as int] != p@[k as int]);
            return false;
        }
        k = k + 1;
    }
    assert(v@.subrange(i as int, i + p.len()) =~= p@);
    true
}

/// `str::contains` on characters.
pub fn contains_vec(v: &Vec<char>, p: &Vec<char>) -> (r: bool)
    ensures
        r == contains_seq(v@, p@),
{
    if p.len() == 0 {
        assert(v@.subrange(0, 0) =~= p@);
        assert(occurs_at(v@, p@, 0));
        return true;
    }
    if p.len() > v.len() {
        return false;
    }
    let last = v.len() - p.len();
    let mut i: usize = 0;
    while i <= last
        invariant
            1 <= p.len() <= v.len(),
            last == v.len() - p.len(),
            i <= last + 1,
            forall|j: int| 0 <= j < i ==> !occurs_at(v@, p@, j),
        decreases last + 1 - i,
    {
        if occurs_at_exec(v, p, i) {
            return true;
        }
        i = i + 1;
    }
    assert forall|j: int| !occurs_at(v@, p@, j) by {
        if 0 <= j < i {
        }
    }
    false
}

// ───────────────────────── lines ─────────────────────────

/// A line taken from before a `\n`: one trailing `\r` is dropped.
pub open spec fn strip_cr(s: Seq<char>) -> Seq<char> {
    if s.len() > 0 && s.last() == '\r' {
        s.drop_last()
    } else {
        s
    }
}

/// The character views of a sequence of character vectors.
pub open spec fn vviews(r: Seq<Vec<char>>) -> Seq<Seq<char>> {
    Seq::new(r.len(), |i: int| r[i]@)
}

/// `str::lines`: split at `\n`, strip a `\r` before each `\n`, no final empty line.
pub open spec fn lines(s: Seq<char>) -> Seq<Seq<char>>
    decreases s.len(),
{
    if s.len() == 0 {
        seq![]
    } else {
        let i = find_first(s, '\n');
        if i < 0 {
            seq![s]
        } else {
            proof {
                lemma_find_first_props(s, '\n');
            }
            seq![strip_cr(s.take(i))] + lines(s.skip(i + 1))
        }
    }
}

/// Whether a text ends in a carriage return.
pub open spec fn ends_in_cr(l: Seq<char>) -> bool {
    l.len() > 0 && l.last() == '\r'
}

/// A line without a line break that does not end in a carriage return.
pub open spec fn clean_line(l: Seq<char>) -> bool {
    !l.contains('\n') && !ends_in_cr(l)
}

/// Lines are split at the first `\n`, so a text that ends a line can be split off in front.
pub proof fn lemma_lines_append(a: Seq<char>, b: Seq<char>)
    requires
        a.len() == 0 || a.last() == '\n',
    ensures
        lines(a + b) == lines(a) + lines(b),
    decreases a.len(),
{
    if a.len() == 0 {
        assert(a + b =~= b);
        assert(lines(a) =~= Seq::<Seq<char>>::empty());
        assert(lines(a) + lines(b) =~= lines(b));
    } else {
        let s = a + b;
        lemma_find_first_props(a, '\n');
        lemma_find_first_props(s, '\n');
        let i = find_first(a, '\n');
        assert(s[a.len() - 1] == '\n');
        assert(i >= 0);
        assert(forall|j: int| 0 <= j < a.len() ==> s[j] == a[j]);
        assert(find_first(s, '\n') == i) by {
            let fs = find_first(s, '\n');
            if fs < i {
                assert(s[fs] == a[fs]);
            } else if fs > i {
                assert(s[i] == a[i]);
            }
        }
        assert(s.take(i) =~= a.take(i));
        assert(s.skip(i + 1) =~= a.skip(i + 1) + b);
        let a2 = a.skip(i + 1);
        if a2.len() > 0 {
            assert(a2.last() == a.last());
        }
        lemma_lines_append(a2, b);
        assert(lines(s) =~= seq![strip_cr(a.take(i))] + (lines(a2) + lines(b)));
        assert(lines(a) =~= seq![strip_cr(a.take(i))] + lines(a2));
        assert(lines(a) + lines(b) =~= seq![strip_cr(a.take(i))] + (lines(a2) + lines(b)));
    }
}

/// A clean line followed by `\n` is that one line.
pub proof fn lemma_lines_one(l: Seq<char>)
    requires
        clean_line(l),
    ensures
        lines(l + seq!['\n']) == seq![l],
{
    let s = l + seq!['\n'];
    assert forall|j: int| 0 <= j < l.len() implies s[j] != '\n' by {
        assert(s[j] == l[j]);
        if s[j] == '\n' {
            assert(l.contains('\n'));
        }
    }
    lemma_find_first_at(s, '\n', l.len() as int);
    assert(s.take(l.len() as int) =~= l);
    assert(s.skip(l.len() as int + 1) =~= Seq::<char>::empty());
    assert(strip_cr(l) == l);
    let e = s.skip(l.len() as int + 1);
    assert(lines(e) =~= Seq::<Seq<char>>::empty());
    assert(find_first(s, '\n') == l.len());
    assert(lines(s) == seq![strip_cr(s.take(l.len() as int))] + lines(e));
    assert(lines(s) =~= seq![l]);
}

/// No line holds a line break.
pub proof fn lemma_lines_no_newline(s: Seq<char>)
    ensures
        forall|j: int| 0 <= j < lines(s).len() ==> !(#[trigger] lines(s)[j]).contains('\n'),
    decreases s.len(),
{
    if s.len() > 0 {
        lemma_find_first_props(s, '\n');
        let i = find_first(s, '\n');
        if i < 0 {
            assert(lines(s) =~= seq![s]);
            assert(!s.contains('\n'));
        } else {
            let t = s.take(i);
            assert(!strip_cr(t).contains('\n')) by {
                if strip_cr(t).contains('\n') {
                    let j = choose|j: int| 0 <= j < strip_cr(t).len() && strip_cr(t)[j] == '\n';
                    assert(s[j] == '\n');
                }
            }
            let r = s.skip(i + 1);
            lemma_lines_no_newline(r);
            assert(lines(s) =~= seq![strip_cr(t)] + lines(r));
            assert forall|j: int| 0 <= j < lines(s).len() implies !(#[trigger] lines(s)[j]).contains('\n') by {
                if j > 0 {
                    assert(lines(s)[j] == lines(r)[j - 1]);
                }
            }
        }
    }
}

/// Each line followed by `\n`.
pub open spec fn joined_lines(ls: Seq<Seq<char>>) -> Seq<char>
    decreases ls.len(),
{
    if ls.len() == 0 {
        seq![]
    } else {
        joined_lines(ls.drop_last()) + ls.last() + seq!['\n']
    }
}

/// Joining clean lines, each followed by `\n`, and splitting the text into lines gives
/// them back.
pub proof fn lemma_lines_of_joined(ls: Seq<Seq<char>>)
    requires
        forall|j: int| 0 <= j < ls.len() ==> clean_line(#[trigger] ls[j]),
    ensures
        lines(joined_lines(ls)) == ls,
    decreases ls.len(),
{
    if ls.len() == 0 {
        assert(lines(joined_lines(ls)) =~= ls);
    } else {
        let dl = ls.drop_last();
        assert forall|j: int| 0 <= j < dl.len() implies clean_line(#[trigger] dl[j]) by {
            assert(dl[j] == ls[j]);
        }
        lemma_lines_of_joined(dl);
        let a = joined_lines(dl);
        if dl.len() > 0 {
            assert(a.last() == '\n');
        }
        assert(clean_line(ls[ls.len() - 1]));
        lemma_lines_append(a, ls.last() + seq!['\n']);
        lemma_lines_one(ls.last());
        assert(a + ls.last() + seq!['\n'] =~= a + (ls.last() + seq!['\n']));
        assert(lines(joined_lines(ls)) =~= ls);
    }
}

/// A text without a line break is one line.
pub proof fn lemma_lines_single(x: Seq<char>)
    requires
        x.len() > 0,
        !x.contains('\n'),
    ensures
        lines(x) == seq![x],
{
    lemma_find_first_props(x, '\n');
    if find_first(x, '\n') >= 0 {
        assert(x[find_first(x, '\n')] == '\n');
    }
}

/// A final `\n` after a last line that ends in neither `\n` nor `\r` adds no line.
pub proof fn lemma_lines_newline_end(x: Seq<char>)
    requires
        x.len() > 0,
        x.last() != '\n',
        x.last() != '\r',
    ensures
        lines(x + seq!['\n']) == lines(x),
    decreases x.len(),
{
    let s = x + seq!['\n'];
    lemma_find_first_props(x, '\n');
    lemma_find_first_props(s, '\n');
    let i = find_first(x, '\n');
    assert(forall|j: int| 0 <= j < x.len() ==> s[j] == x[j]);
    if i < 0 {
        lemma_find_first_at(s, '\n', x.len() as int);
        assert(s.take(x.len() as int) =~= x);
        let e = s.skip(x.len() as int + 1);
        assert(e =~= Seq::<char>::empty());
        assert(lines(e) =~= Seq::<Seq<char>>::empty());
        assert(lines(s) == seq![strip_cr(x)] + lines(e));
        assert(lines(s) =~= seq![x]);
        assert(lines(x) =~= seq![x]);
    } else {
        assert(find_first(s, '\n') == i) by {
            let fs = find_first(s, '\n');
            if fs < i {
                assert(s[fs] == x[fs]);
            } else if fs > i {
                assert(s[i] == x[i]);
            }
        }
        assert(i < x.len() - 1);
        assert(s.take(i) =~= x.take(i));
        let r = x.skip(i + 1);
        assert(s.skip(i + 1) =~= r + seq!['\n']);
        assert(r.last() == x.last());
        lemma_lines_newline_end(r);
        assert(lines(s) == seq![strip_cr(s.take(i))] + lines(s.skip(i + 1)));
        assert(lines(x) == seq![strip_cr(x.take(i))] + lines(r));
    }
}

/// Joining a line in front.
pub proof fn lemma_joined_lines_front(a: Seq<char>, ls: Seq<Seq<char>>)
    ensures
        joined_lines(seq![a] + ls) == a + seq!['\n'] + joined_lines(ls),
    decreases ls.len(),
{
    if ls.len() == 0 {
        assert(seq![a] + ls =~= seq![a]);
        assert((seq![a] + ls).drop_last() =~= Seq::<Seq<char>>::empty());
        assert(joined_lines(ls) =~= Seq::<char>::empty());
        assert(joined_lines(Seq::<Seq<char>>::empty()) =~= Seq::<char>::empty());
        assert(a + seq!['\n'] + joined_lines(ls) =~= a + seq!['\n']);
        assert(joined_lines(seq![a] + ls) =~= Seq::<char>::empty() + a + seq!['\n']);
    } else {
        lemma_joined_lines_front(a, ls.drop_last());
        assert((seq![a] + ls).drop_last() =~= seq![a] + ls.drop_last());
        assert((seq![a] + ls).last() == ls.last());
        assert(joined_lines(seq![a] + ls) =~= a + seq!['\n'] + joined_lines(ls));
    }
}

/// Splitting a text that ends a line (and has no `\r`) into lines and joining them again
/// gives the text back.
pub proof fn lemma_joined_lines_of(t: Seq<char>)
    requires
        !t.contains('\r'),
        t.len() == 0 || t.last() == '\n',
    ensures
        joined_lines(lines(t)) == t,
    decreases t.len(),
{
    if t.len() == 0 {
        assert(lines(t) =~= Seq::<Seq<char>>::empty());
        assert(joined_lines(lines(t)) =~= t);
    } else {
        lemma_find_first_props(t, '\n');
        let i = find_first(t, '\n');
        assert(t[t.len() - 1] == '\n');
        assert(i >= 0);
        let a = t.take(i);
        let r = t.skip(i + 1);
        if a.len() > 0 && a.last() == '\r' {
            assert(t[i - 1] == '\r');
            assert(t.contains('\r'));
        }
        assert(strip_cr(a) == a);
        assert(!r.contains('\r')) by {
            if r.contains('\r') {
                let j = choose|j: int| 0 <= j < r.len() && r[j] == '\r';
                assert(t[i + 1 + j] == '\r');
            }
        }
        if r.len() > 0 {
            assert(r.last() == t.last());
        }
        lemma_joined_lines_of(r);
        assert(lines(t) == seq![a] + lines(r));
        lemma_joined_lines_front(a, lines(r));
        assert(t =~= a + seq!['\n'] + r);
    }
}

/// A trimmed text followed by whitespace trims to itself.
pub proof fn lemma_trim_pad(v: Seq<char>, w: Seq<char>)
    requires
        trim(v) == v,
        forall|j: int| 0 <= j < w.len() ==> is_ws(#[trigger] w[j]),
    ensures
        trim(v + w) == v,
{
    let s = v + w;
    if v.len() == 0 {
        assert(s =~= w);
        lemma_trim_start_skip(w, w.len() as int);
        assert(w.skip(w.len() as int) =~= Seq::<char>::empty());
        assert(trim_start(Seq::<char>::empty()) =~= Seq::<char>::empty());
        assert(trim_end(Seq::<char>::empty()) =~= Seq::<char>::empty());
    } else {
        let k1 = lemma_trim_start_shape(v);
        let u = trim_start(v);
        let k2 = lemma_trim_end_shape(u);
        assert(k1 == 0);
        assert(u =~= v);
        assert(!is_ws(v[0]));
        assert(!is_ws(v.last()));
        assert(s[0] == v[0]);
        assert(trim_start(s) == s);
        lemma_trim_end_take(s, v.len() as int);
        assert(s.take(v.len() as int) =~= v);
        assert(trim_end(v) == v);
    }
}

/// The lines of a text, as vectors of characters.
pub fn lines_vec(v: &Vec<char>) -> (r: Vec<Vec<char>>)
    ensures
        vviews(r@) == lines(v@),
{
    let mut r: Vec<Vec<char>> = Vec::new();
    let mut pos: usize = 0;
    assert(v@.skip(0) =~= v@);
    while pos < v.len()
        invariant
            pos <= v.len(),
            lines(v@) == vviews(r@) + lines(v@.skip(pos as int)),
        decreases v.len() - pos,
    {
        let ghost rest = v@.skip(pos as int);
        let ghost old_r = vviews(r@);
        proof {
            lemma_find_first_props(rest, '\n');
        }
        match find_char_from(v, '\n', pos) {
            Some(i) => {
                let mut end = i;
                if end > pos && v[end - 1] == '\r' {
                    end = end - 1;
                }
                let line = sub_vec(v, pos, end);
                proof {
                    assert(rest.take(i - pos) =~= v@.subrange(pos as int, i as int));
                    assert(strip_cr(rest.take(i - pos)) =~= line@);
                    assert(rest.skip(i - pos + 1) =~= v@.skip(i + 1));
                }
                r.push(line);
                proof {
                    assert(vviews(r@) =~= old_r.push(line@));
                    assert(lines(rest) == seq![line@] + lines(v@.skip(i + 1)));
                    assert(old_r + (seq![line@] + lines(v@.skip(i + 1))) =~= old_r.push(line@)
                        + lines(v@.skip(i + 1)));
                }
                pos = i + 1;
            },
            None => {
                let line = sub_vec(v, pos, v.len());
                proof {
                    assert(line@ =~= rest);
                    assert(lines(rest) == seq![rest]);
                }
                r.push(line);
                proof {
                    assert(vviews(r@) =~= old_r.push(line@));
                    assert(v@.skip(v.len() as int) =~= Seq::<char>::empty());
                    assert(old_r + seq![rest] =~= old_r.push(line@) + Seq::<Seq<char>>::empty());
                }
                pos = v.len();
            },
        }
    }
    proof {
        assert(v@.skip(pos as int) =~= Seq::<char>::empty());
        assert(vviews(r@) + Seq::<Seq<char>>::empty() =~= vviews(r@));
    }
    r
}

// ───────────────────────── decimal numbers ─────────────────────────

/// The decimal digit for `d < 10`.
pub open spec fn digit_char(d: nat) -> char {
    if d == 0 { '0' }
    else if d == 1 { '1' }
    else if d == 2 { '2' }
    else if d == 3 { '3' }
    else if d == 4 { '4' }
    else if d == 5 { '5' }
    else if d == 6 { '6' }
    else if d == 7 { '7' }
    else if d == 8 { '8' }
    else { '9' }
}

/// Decimal rendering of a natural number, as `{}` formats an unsigned integer.
pub open spec fn decimal(n: nat) -> Seq<char>
    decreases n,
{
    if n < 10 {
        seq![digit_char(n)]
    } else {
        decimal(n / 10) + seq![digit_char(n % 10)]
    }
}

fn digit_exec(d: usize) -> (c: char)
    requires
        d < 10,
    ensures
        c == digit_char(d as nat),
{
    if d == 0 { '0' }
    else if d == 1 { '1' }
    else if d == 2 { '2' }
    else if d == 3 { '3' }
    else if d == 4 { '4' }
    else if d == 5 { '5' }
    else if d == 6 { '6' }
    else if d == 7 { '7' }
    else if d == 8 { '8' }
    else { '9' }
}

/// Decimal rendering of `n` as characters.
pub fn decimal_vec(n: usize) -> (r: Vec<char>)
    ensures
        r@ == decimal(n as nat),
    decreases n,
{
    if n < 10 {
        let mut r: Vec<char> = Vec::new();
        r.push(digit_exec(n));
        assert(r@ =~= seq![digit_char(n as nat)]);
        r
    } else {
        let mut r = decimal_vec(n / 10);
        r.push(digit_exec(n % 10));
        r
    }
}

/// Decimal rendering of `n` as a string.
pub fn decimal_string(n: usize) -> (r: String)
    ensures
        r@ == decimal(n as nat),
{
    let v = decimal_vec(n);
    string_of(&v)
}

// ───────────────────────── lexicographic order ─────────────────────────

/// Strict lexicographic order by code point, which is the order of `str`/`String`.
pub open spec fn seq_lt(a: Seq<char>, b: Seq<char>) -> bool
    decreases a.len(),
{
    if a.len() == 0 {
        b.len() > 0
    } else if b.len() == 0 {
        false
    } else if a[0] != b[0] {
        a[0] < b[0]
    } else {
        seq_lt(a.drop_first(), b.drop_first())
    }
}

pub proof fn lemma_seq_lt_irrefl(a: Seq<char>)
    ensures
        !seq_lt(a, a),
    decreases a.len(),
{
    if a.len() > 0 {
        lemma_seq_lt_irrefl(a.drop_first());
    }
}

pub proof fn lemma_seq_lt_trans(a: Seq<char>, b: Seq<char>, c: Seq<char>)
    requires
        seq_lt(a, b),
        seq_lt(b, c),
    ensures
        seq_lt(a, c),
    decreases a.len(),
{
    if a.len() > 0 && b.len() > 0 && c.len() > 0 {
        if a[0] == b[0] && b[0] == c[0] {
            lemma_seq_lt_trans(a.drop_first(), b.drop_first(), c.drop_first());
        }
    }
}

pub proof fn lemma_seq_lt_total(a: Seq<char>, b: Seq<char>)
    ensures
        seq_lt(a, b) || seq_lt(b, a) || a == b,
    decreases a.len(),
{
    if a.len() > 0 && b.len() > 0 {
        if a[0] == b[0] {
            lemma_seq_lt_total(a.drop_first(), b.drop_first());
            if a.drop_first() == b.drop_first() {
                assert(a =~= seq![a[0]] + a.drop_first());
                assert(b =~= seq![b[0]] + b.drop_first());
            }
        }
    } else if a.len() == 0 && b.len() == 0 {
        assert(a =~= b);
    }
}

/// `a < b` for strings.
pub fn str_lt(a: &str, b: &str) -> (r: bool)
    ensures
        r == seq_lt(a@, b@),
{
    let va = chars_of(a);
    let vb = chars_of(b);
    let mut i: usize = 0;
    proof {
        assert(va@.skip(0) =~= va@);
        assert(vb@.skip(0) =~= vb@);
    }
    while i < va.len() && i < vb.len() && va[i] == vb[i]
        invariant
            i <= va.len(),
            i <= vb.len(),
            seq_lt(va@, vb@) == seq_lt(va@.skip(i as int), vb@.skip(i as int)),
        decreases va.len() - i,
    {
        proof {
            let x = va@.skip(i as int);
            let y = vb@.skip(i as int);
            assert(x.drop_first() =~= va@.skip(i + 1));
            assert(y.drop_first() =~= vb@.skip(i + 1));
        }
        i = i + 1;
    }
    proof {
        assert(va@.skip(0) =~= va@);
        assert(vb@.skip(0) =~= vb@);
    }
    if i == va.len() {
        i < vb.len()
    } else if i == vb.len() {
        false
    } else {
        va[i] < vb[i]
    }
}

/// Inserts `x` before the first element greater than it (stable insertion).
pub open spec fn insert_sorted(x: Seq<char>, s: Seq<Seq<char>>) -> Seq<Seq<char>>
    decreases s.len(),
{
    if s.len() == 0 {
        seq![x]
    } else if seq_lt(x, s[0]) {
        seq![x] + s
    } else {
        seq![s[0]] + insert_sorted(x, s.drop_first())
    }
}

/// Stable ascending sort (insertion sort), the order `slice::sort` yields for strings.
pub open spec fn sort_seqs(s: Seq<Seq<char>>) -> Seq<Seq<char>>
    decreases s.len(),
{
    if s.len() == 0 {
        seq![]
    } else {
        insert_sorted(s.last(), sort_seqs(s.drop_last()))
    }
}

proof fn lemma_insert_sorted_at(x: Seq<char>, s: Seq<Seq<char>>, k: int)
    requires
        0 <= k <= s.len(),
        forall|j: int| 0 <= j < k ==> !seq_lt(x, s[j]),
        k < s.len() ==> seq_lt(x, s[k]),
    ensures
        insert_sorted(x, s) == s.take(k) + seq![x] + s.skip(k),
    decreases s.len(),
{
    if s.len() == 0 {
        assert(s.take(k) + seq![x] + s.skip(k) =~= seq![x]);
    } else if k == 0 {
        assert(s.take(k) + seq![x] + s.skip(k) =~= seq![x] + s);
    } else {
        lemma_insert_sorted_at(x, s.drop_first(), k - 1);
        assert(seq![s[0]] + (s.drop_first().take(k - 1) + seq![x] + s.drop_first().skip(k - 1))
            =~= s.take(k) + seq![x] + s.skip(k));
    }
}

proof fn lemma_insert_sorted_elems(x: Seq<char>, s: Seq<Seq<char>>)
    ensures
        forall|y: Seq<char>| #[trigger] insert_sorted(x, s).contains(y) <==> (y == x || s.contains(y)),
        s.no_duplicates() && !s.contains(x) ==> insert_sorted(x, s).no_duplicates(),
        insert_sorted(x, s).len() == s.len() + 1,
    decreases s.len(),
{
    if s.len() == 0 {
        assert(insert_sorted(x, s) =~= seq![x]);
        assert forall|y: Seq<char>| insert_sorted(x, s).contains(y) <==> (y == x || s.contains(y)) by {
            if y == x {
                assert(insert_sorted(x, s)[0] == x);
            }
        }
    } else if seq_lt(x, s[0]) {
        let r = seq![x] + s;
        assert forall|y: Seq<char>| r.contains(y) <==> (y == x || s.contains(y)) by {
            if y == x {
                assert(r[0] == x);
            }
            if s.contains(y) {
                let j = choose|j: int| 0 <= j < s.len() && s[j] == y;
                assert(r[j + 1] == y);
            }
            if r.contains(y) {
                let j = choose|j: int| 0 <= j < r.len() && r[j] == y;
                if j > 0 {
                    assert(s[j - 1] == y);
                }
            }
        }
        if s.no_duplicates() && !s.contains(x) {
            assert forall|a: int, b: int| 0 <= a < r.len() && 0 <= b < r.len() && a != b implies r[a] != r[b] by {
                if a == 0 && b > 0 {
                    assert(r[b] == s[b - 1]);
                } else if b == 0 && a > 0 {
                    assert(r[a] == s[a - 1]);
                } else if a > 0 && b > 0 {
                    assert(r[a] == s[a - 1]);
                    assert(r[b] == s[b - 1]);
                }
            }
        }
    } else {
        let d = s.drop_first();
        lemma_insert_sorted_elems(x, d);
        let i2 = insert_sorted(x, d);
        let r = seq![s[0]] + i2;
        assert(insert_sorted(x, s) == r);
        assert forall|y: Seq<char>| r.contains(y) <==> (y == x || s.contains(y)) by {
            if y == s[0] {
                assert(r[0] == y);
            }
            if y == x {
                assert(i2.contains(x));
                let j = choose|j: int| 0 <= j < i2.len() && i2[j] == x;
                assert(r[j + 1] == x);
            }
            if s.contains(y) && y != s[0] {
                let j = choose|j: int| 0 <= j < s.len() && s[j] == y;
                assert(d[j - 1] == y);
                assert(i2.contains(y));
                let j2 = choose|j2: int| 0 <= j2 < i2.len() && i2[j2] == y;
                assert(r[j2 + 1] == y);
            }
            if r.contains(y) {
                let j = choose|j: int| 0 <= j < r.len() && r[j] == y;
                if j > 0 {
                    assert(i2[j - 1] == y);
                    assert(i2.contains(y));
                    assert(insert_sorted(x, d).contains(y));
                    if y != x {
                        assert(d.contains(y));
                        let j2 = choose|j2: int| 0 <= j2 < d.len() && d[j2] == y;
                        assert(s[j2 + 1] == y);
                    }
                } else {
                    assert(s[0] == y);
                }
            }
        }
        if s.no_duplicates() && !s.contains(x) {
            assert(d.no_duplicates()) by {
                assert forall|a: int, b: int| 0 <= a < d.len() && 0 <= b < d.len() && a != b implies d[a] != d[b] by {
                    assert(d[a] == s[a + 1]);
                    assert(d[b] == s[b + 1]);
                }
            }
            assert(!d.contains(x)) by {
                if d.contains(x) {
                    let j = choose|j: int| 0 <= j < d.len() && d[j] == x;
                    assert(s[j + 1] == x);
                }
            }
            assert(!i2.contains(s[0])) by {
                if i2.contains(s[0]) {
                    assert(s[0] != x) by {
                        assert(s[0] == s[0]);
                        if s[0] == x {
                            assert(s.contains(x));
                        }
                    }
                    assert(d.contains(s[0]));
                    let j = choose|j: int| 0 <= j < d.len() && d[j] == s[0];
                    assert(s[j + 1] == s[0]);
                }
            }
            assert forall|a: int, b: int| 0 <= a < r.len() && 0 <= b < r.len() && a != b implies r[a] != r[b] by {
                if a == 0 && b > 0 {
                    assert(r[b] == i2[b - 1]);
                } else if b == 0 && a > 0 {
                    assert(r[a] == i2[a - 1]);
                } else if a > 0 && b > 0 {
                    assert(r[a] == i2[a - 1]);
                    assert(r[b] == i2[b - 1]);
                }
            }
        }
    }
}

/// Sorting keeps the elements, and keeps them distinct.
pub proof fn lemma_sort_seqs_elems(s: Seq<Seq<char>>)
    ensures
        forall|y: Seq<char>| #[trigger] sort_seqs(s).contains(y) <==> s.contains(y),
        s.no_duplicates() ==> sort_seqs(s).no_duplicates(),
    decreases s.len(),
{
    if s.len() > 0 {
        let d = s.drop_last();
        lemma_sort_seqs_elems(d);
        lemma_insert_sorted_elems(s.last(), sort_seqs(d));
        assert forall|y: Seq<char>| sort_seqs(s).contains(y) <==> s.contains(y) by {
            if s.contains(y) && y != s.last() {
                let j = choose|j: int| 0 <= j < s.len() && s[j] == y;
                assert(d[j] == y);
            }
            if y == s.last() {
                assert(s[s.len() - 1] == y);
            }
            if d.contains(y) {
                let j = choose|j: int| 0 <= j < d.len() && d[j] == y;
                assert(s[j] == y);
            }
        }
        if s.no_duplicates() {
            assert(d.no_duplicates()) by {
                assert forall|a: int, b: int| 0 <= a < d.len() && 0 <= b < d.len() && a != b implies d[a] != d[b] by {
                    assert(d[a] == s[a]);
                    assert(d[b] == s[b]);
                }
            }
            assert(!sort_seqs(d).contains(s.last())) by {
                if d.contains(s.last()) {
                    let j = choose|j: int| 0 <= j < d.len() && d[j] == s.last();
                    assert(s[j] == s[s.len() - 1]);
                }
            }
        }
    }
}

/// No element is smaller than an earlier one.
pub open spec fn sorted_seqs(s: Seq<Seq<char>>) -> bool {
    forall|i: int, j: int| 0 <= i < j < s.len() ==> !seq_lt(#[trigger] s[j], #[trigger] s[i])
}

proof fn lemma_insert_sorted_sorted(x: Seq<char>, s: Seq<Seq<char>>)
    requires
        sorted_seqs(s),
    ensures
        sorted_seqs(insert_sorted(x, s)),
    decreases s.len(),
{
    lemma_insert_sorted_elems(x, s);
    if s.len() == 0 {
    } else if seq_lt(x, s[0]) {
        let r = seq![x] + s;
        assert forall|i: int, j: int| 0 <= i < j < r.len() implies !seq_lt(#[trigger] r[j], #[trigger] r[i]) by {
            if i == 0 {
                assert(r[j] == s[j - 1]);
                if seq_lt(s[j - 1], x) {
                    lemma_seq_lt_trans(s[j - 1], x, s[0]);
                    if j - 1 == 0 {
                        lemma_seq_lt_irrefl(s[0]);
                    } else {
                        assert(!seq_lt(s[j - 1], s[0]));
                    }
                }
            } else {
                assert(r[i] == s[i - 1]);
                assert(r[j] == s[j - 1]);
            }
        }
    } else {
        let d = s.drop_first();
        assert(sorted_seqs(d)) by {
            assert forall|i: int, j: int| 0 <= i < j < d.len() implies !seq_lt(#[trigger] d[j], #[trigger] d[i]) by {
                assert(d[i] == s[i + 1]);
                assert(d[j] == s[j + 1]);
            }
        }
        lemma_insert_sorted_sorted(x, d);
        lemma_insert_sorted_elems(x, d);
        let i2 = insert_sorted(x, d);
        let r = seq![s[0]] + i2;
        assert forall|i: int, j: int| 0 <= i < j < r.len() implies !seq_lt(#[trigger] r[j], #[trigger] r[i]) by {
            if i == 0 {
                let y = r[j];
                assert(y == i2[j - 1]);
                assert(insert_sorted(x, d).contains(y));
                if y != x {
                    assert(d.contains(y));
                    let m = choose|m: int| 0 <= m < d.len() && d[m] == y;
                    assert(s[m + 1] == y);
                }
            } else {
                assert(r[i] == i2[i - 1]);
                assert(r[j] == i2[j - 1]);
            }
        }
    }
}

/// Sorting gives a sorted sequence.
pub proof fn lemma_sort_seqs_sorted(s: Seq<Seq<char>>)
    ensures
        sorted_seqs(sort_seqs(s)),
    decreases s.len(),
{
    if s.len() > 0 {
        lemma_sort_seqs_sorted(s.drop_last());
        lemma_insert_sorted_sorted(s.last(), sort_seqs(s.drop_last()));
    }
}

/// Two sorted sequences without repeats that hold the same elements are equal.
pub proof fn lemma_sorted_unique(a: Seq<Seq<char>>, b: Seq<Seq<char>>)
    requires
        sorted_seqs(a),
        sorted_seqs(b),
        a.no_duplicates(),
        b.no_duplicates(),
        forall|y: Seq<char>| a.contains(y) <==> b.contains(y),
    ensures
        a == b,
    decreases a.len(),
{
    if a.len() == 0 {
        if b.len() > 0 {
            assert(b.contains(b[0]));
        }
        assert(a =~= b);
    } else {
        assert(a.contains(a[0]));
        assert(b.contains(a[0]));
        let j = choose|j: int| 0 <= j < b.len() && b[j] == a[0];
        assert(b.contains(b[0]));
        assert(a.contains(b[0]));
        let i = choose|i: int| 0 <= i < a.len() && a[i] == b[0];
        if j > 0 {
            // b[0] < a[0] would be needed; both orders fail
            assert(!seq_lt(b[j], b[0]));
            if i > 0 {
                assert(!seq_lt(a[i], a[0]));
                lemma_seq_lt_total(a[0], b[0]);
                assert(a[0] != b[0]);
            } else {
                assert(b[0] == b[j]);
            }
        }
        assert(a[0] == b[0]);
        let a2 = a.drop_first();
        let b2 = b.drop_first();
        assert forall|y: Seq<char>| a2.contains(y) <==> b2.contains(y) by {
            if a2.contains(y) {
                let m = choose|m: int| 0 <= m < a2.len() && a2[m] == y;
                assert(a[m + 1] == y);
                assert(y != a[0]);
                assert(b.contains(y));
                let n = choose|n: int| 0 <= n < b.len() && b[n] == y;
                assert(n != 0);
                assert(b2[n - 1] == y);
            }
            if b2.contains(y) {
                let m = choose|m: int| 0 <= m < b2.len() && b2[m] == y;
                assert(b[m + 1] == y);
                assert(y != b[0]);
                assert(a.contains(y));
                let n = choose|n: int| 0 <= n < a.len() && a[n] == y;
                assert(n != 0);
                assert(a2[n - 1] == y);
            }
        }
        assert(sorted_seqs(a2)) by {
            assert forall|p: int, q: int| 0 <= p < q < a2.len() implies !seq_lt(#[trigger] a2[q], #[trigger] a2[p]) by {
                assert(a2[p] == a[p + 1]);
                assert(a2[q] == a[q + 1]);
            }
        }
        assert(sorted_seqs(b2)) by {
            assert forall|p: int, q: int| 0 <= p < q < b2.len() implies !seq_lt(#[trigger] b2[q], #[trigger] b2[p]) by {
                assert(b2[p] == b[p + 1]);
                assert(b2[q] == b[q + 1]);
            }
        }
        assert(a2.no_duplicates()) by {
            assert forall|p: int, q: int| 0 <= p < a2.len() && 0 <= q < a2.len() && p != q implies a2[p] != a2[q] by {
                assert(a2[p] == a[p + 1]);
                assert(a2[q] == a[q + 1]);
            }
        }
        assert(b2.no_duplicates()) by {
            assert forall|p: int, q: int| 0 <= p < b2.len() && 0 <= q < b2.len() && p != q implies b2[p] != b2[q] by {
                assert(b2[p] == b[p + 1]);
                assert(b2[q] == b[q + 1]);
            }
        }
        lemma_sorted_unique(a2, b2);
        assert(a =~= seq![a[0]] + a2);
        assert(b =~= seq![b[0]] + b2);
    }
}

/// Sorts strings ascending (stable).
pub fn sort_strings(v: &Vec<String>) -> (r: Vec<String>)
    ensures
        r.deep_view() == sort_seqs(v.deep_view()),
{
    let mut r: Vec<String> = Vec::new();
    let mut i: usize = 0;
    while i < v.len()
        invariant
            i <= v.len(),
            r.deep_view() == sort_seqs(v.deep_view().take(i as int)),
        decreases v.len() - i,
    {
        let x = v[i].clone();
        let mut k: usize = 0;
        while k < r.len() && !str_lt(x.as_str(), r[k].as_str())
            invariant
                k <= r.len(),
                forall|j: int| 0 <= j < k ==> !seq_lt(x@, r.deep_view()[j]),
            decreases r.len() - k,
        {
            k = k + 1;
        }
        let ghost before = r.deep_view();
        proof {
            lemma_insert_sorted_at(x@, before, k as int);
            assert(v.deep_view().take(i + 1).drop_last() =~= v.deep_view().take(i as int));
            assert(v.deep_view().take(i + 1).last() == x@);
        }
        r.insert(k, x);
        proof {
            assert(r.deep_view() =~= before.take(k as int) + seq![x@] + before.skip(k as int));
        }
        i = i + 1;
    }
    proof {
        assert(v.deep_view().take(v.len() as int) =~= v.deep_view());
    }
    r
}

} // verus!
