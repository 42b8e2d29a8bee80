//! An insertion-ordered string map with distinct keys, standing for the
//! `HashMap<String, String>` values of prompts (sections, params, vars).
use vstd::prelude::*;
use crate::text::str_eq;

verus! {

/// Entries of a map: (key, value) pairs in insertion order.
pub type Entries = Seq<(Seq<char>, Seq<char>)>;

/// Index of the entry with key `k`, or -1.
pub open spec fn key_index(e: Entries, k: Seq<char>) -> int
    decreases e.len(),
{
    if e.len() == 0 {
        -1
    } else if e[0].0 == k {
        0
    } else {
        let r = key_index(e.drop_first(), k);
        if r < 0 {
            -1
        } else {
            r + 1
        }
    }
}

/// Whether `k` is a key of `e`.
pub open spec fn has_key(e: Entries, k: Seq<char>) -> bool {
    key_index(e, k) >= 0
}

/// The value stored under `k`.
pub open spec fn lookup(e: Entries, k: Seq<char>) -> Option<Seq<char>> {
    let i = key_index(e, k);
    if i >= 0 && i < e.len() {
        Some(e[i].1)
    } else {
        None
    }
}

/// `insert(k, v)`: replace the value in place, or append a new entry.
pub open spec fn entries_insert(e: Entries, k: Seq<char>, v: Seq<char>) -> Entries {
    let i = key_index(e, k);
    if i >= 0 {
        e.update(i, (k, v))
    } else {
        e.push((k, v))
    }
}

/// The keys of `e`, in order.
pub open spec fn keys_of(e: Entries) -> Seq<Seq<char>> {
    Seq::new(e.len(), |i: int| e[i].0)
}

/// No key occurs twice.
pub open spec fn distinct_keys(e: Entries) -> bool {
    forall|i: int, j: int| 0 <= i < j < e.len() ==> e[i].0 != e[j].0
}

pub proof fn lemma_key_index(e: Entries, k: Seq<char>)
    ensures
        -1 <= key_index(e, k) < e.len(),
        key_index(e, k) >= 0 ==> e[key_index(e, k)].0 == k,
        forall|j: int|
            0 <= j < e.len() && (key_index(e, k) < 0 || j < key_index(e, k)) ==> e[j].0 != k,
        key_index(e, k) < 0 <==> !keys_of(e).contains(k),
    decreases e.len(),
{
    if e.len() > 0 {
        lemma_key_index(e.drop_first(), k);
        assert forall|j: int|
            0 <= j < e.len() && (key_index(e, k) < 0 || j < key_index(e, k)) implies e[j].0 != k by {
            if j > 0 {
                assert(e[j] == e.drop_first()[j - 1]);
            }
        }
        if key_index(e, k) >= 0 {
            assert(keys_of(e)[key_index(e, k)] == k);
        }
        if keys_of(e).contains(k) {
            let j = choose|j: int| 0 <= j < keys_of(e).len() && keys_of(e)[j] == k;
            assert(e[j].0 == k);
        }
    }
}

pub proof fn lemma_key_index_at(e: Entries, k: Seq<char>, i: int)
    requires
        0 <= i < e.len(),
        e[i].0 == k,
        forall|j: int| 0 <= j < i ==> e[j].0 != k,
    ensures
        key_index(e, k) == i,
    decreases i,
{
    if i > 0 {
        lemma_key_index_at(e.drop_first(), k, i - 1);
    }
}

pub proof fn lemma_key_index_none(e: Entries, k: Seq<char>)
    requires
        forall|j: int| 0 <= j < e.len() ==> e[j].0 != k,
    ensures
        key_index(e, k) == -1,
    decreases e.len(),
{
    if e.len() > 0 {
        lemma_key_index_none(e.drop_first(), k);
    }
}

/// Inserting keeps keys distinct; lookups see the new value for `k` and the old one elsewhere.
pub proof fn lemma_insert(e: Entries, k: Seq<char>, v: Seq<char>)
    requires
        distinct_keys(e),
    ensures
        distinct_keys(entries_insert(e, k, v)),
        lookup(entries_insert(e, k, v), k) == Some(v),
        forall|k2: Seq<char>| k2 != k ==> lookup(entries_insert(e, k, v), k2) == lookup(e, k2),
        forall|k2: Seq<char>| has_key(entries_insert(e, k, v), k2) <==> (has_key(e, k2) || k2 == k),
{
    lemma_key_index(e, k);
    let e2 = entries_insert(e, k, v);
    let i = key_index(e, k);
    assert forall|a: int, b: int| 0 <= a < b < e2.len() implies e2[a].0 != e2[b].0 by {
        if i < 0 && b == e.len() {
        }
    }
    lemma_key_index(e2, k);
    if i >= 0 {
        lemma_key_index_at(e2, k, i);
    } else {
        lemma_key_index_at(e2, k, e.len() as int);
    }
    assert forall|k2: Seq<char>| k2 != k implies lookup(e2, k2) == lookup(e, k2) by {
        lemma_key_index(e, k2);
        lemma_key_index(e2, k2);
        let j = key_index(e, k2);
        if j >= 0 {
            lemma_key_index_at(e2, k2, j);
        } else {
            lemma_key_index_none(e2, k2);
        }
    }
    assert forall|k2: Seq<char>| has_key(e2, k2) <==> (has_key(e, k2) || k2 == k) by {
        lemma_key_index(e, k2);
        lemma_key_index(e2, k2);
        let j = key_index(e, k2);
        if j >= 0 && k2 != k {
            lemma_key_index_at(e2, k2, j);
        } else if k2 != k {
            lemma_key_index_none(e2, k2);
        }
    }
}

/// An insertion-ordered map from strings to strings with distinct keys.
#[derive(Debug)]
pub struct StrMap {
    entries: Vec<(String, String)>,
}

impl View for StrMap {
    type V = Entries;

    closed spec fn view(&self) -> Entries {
        Seq::new(self.entries@.len(), |i: int| (self.entries@[i].0@, self.entries@[i].1@))
    }
}

impl StrMap {
    #[verifier::type_invariant]
    closed spec fn inv(self) -> bool {
        distinct_keys(self@)
    }

    /// An empty map.
    pub fn new() -> (r: StrMap)
        ensures
            r@ == Seq::<(Seq<char>, Seq<char>)>::empty(),
    {
        let r = StrMap { entries: Vec::new() };
        assert(r@ =~= Seq::<(Seq<char>, Seq<char>)>::empty());
        r
    }

    /// Number of entries.
    pub fn len(&self) -> (n: usize)
        ensures
            n == self@.len(),
    {
        self.entries.len()
    }

    /// Whether the map has no entries.
    pub fn is_empty(&self) -> (b: bool)
        ensures
            b == (self@.len() == 0),
    {
        self.entries.len() == 0
    }

    /// Index of key `k`.
    pub fn index_of(&self, k: &str) -> (r: Option<usize>)
        ensures
            match r {
                Some(i) => i < self@.len() && key_index(self@, k@) == i,
                None => key_index(self@, k@) == -1,
            },
    {
        let mut i: usize = 0;
        while i < self.entries.len()
            invariant
                i <= self.entries.len(),
                forall|j: int| 0 <= j < i ==> self@[j].0 != k@,
            decreases self.entries.len() - i,
        {
            if str_eq(self.entries[i].0.as_str(), k) {
                proof {
                    lemma_key_index_at(self@, k@, i as int);
                }
                return Some(i);
            }
            i = i + 1;
        }
        proof {
            lemma_key_index_none(self@, k@);
        }
        None
    }

    /// Whether `k` is a key.
    pub fn contains_key(&self, k: &str) -> (b: bool)
        ensures
            b == has_key(self@, k@),
    {
        self.index_of(k).is_some()
    }

    /// The value under `k`.
    pub fn get(&self, k: &str) -> (r: Option<&String>)
        ensures
            match lookup(self@, k@) {
                Some(v) => r matches Some(x) && x@ == v,
                None => r is None,
            },
    {
        match self.index_of(k) {
            Some(i) => Some(&self.entries[i].1),
            None => None,
        }
    }

    /// The key of entry `i`.
    pub fn key_at(&self, i: usize) -> (r: &String)
        requires
            i < self@.len(),
        ensures
            r@ == self@[i as int].0,
    {
        &self.entries[i].0
    }

    /// The value of entry `i`.
    pub fn value_at(&self, i: usize) -> (r: &String)
        requires
            i < self@.len(),
        ensures
            r@ == self@[i as int].1,
    {
        &self.entries[i].1
    }

    /// Inserts or replaces the value for `k`.
    pub fn insert(&mut self, k: String, v: String)
        ensures
            final(self)@ == entries_insert(old(self)@, k@, v@),
    {
        proof {
            use_type_invariant(&*self);
            lemma_key_index(self@, k@);
            lemma_insert(self@, k@, v@);
        }
        let ghost old_view = self@;
        match self.index_of(k.as_str()) {
            Some(i) => {
                let mut entries: Vec<(String, String)> = Vec::new();
                std::mem::swap(&mut entries, &mut self.entries);
                entries.set(i, (k, v));
                assert(Seq::new(entries@.len(), |j: int| (entries@[j].0@, entries@[j].1@))
                    =~= entries_insert(old_view, k@, v@));
                self.entries = entries;
            },
            None => {
                let mut entries: Vec<(String, String)> = Vec::new();
                std::mem::swap(&mut entries, &mut self.entries);
                entries.push((k, v));
                assert(Seq::new(entries@.len(), |j: int| (entries@[j].0@, entries@[j].1@))
                    =~= entries_insert(old_view, k@, v@));
                self.entries = entries;
            },
        }
    }

    /// The keys, in order (no key twice).
    pub fn keys(&self) -> (r: Vec<String>)
        ensures
            r.deep_view() == keys_of(self@),
            distinct_keys(self@),
    {
        proof {
            use_type_invariant(self);
        }
        let mut r: Vec<String> = Vec::new();
        let mut i: usize = 0;
        while i < self.entries.len()
            invariant
                i <= self.entries.len(),
                r.deep_view() == keys_of(self@).take(i as int),
            decreases self.entries.len() - i,
        {
            let ghost before = r.deep_view();
            let key = self.entries[i].0.clone();
            r.push(key);
            assert(r.deep_view() =~= before.push(self@[i as int].0));
            i = i + 1;
            assert(r.deep_view() =~= keys_of(self@).take(i as int));
        }
        assert(keys_of(self@).take(i as int) =~= keys_of(self@));
        r
    }
}

impl Clone for StrMap {
    fn clone(&self) -> (r: Self)
        ensures
            r@ == self@,
    {
        proof {
            use_type_invariant(self);
        }
        let mut entries: Vec<(String, String)> = Vec::new();
        let mut i: usize = 0;
        while i < self.entries.len()
            invariant
                i <= self.entries.len(),
                entries@.len() == i,
                forall|j: int| 0 <= j < i ==> entries@[j].0@ == self.entries@[j].0@ && entries@[j].1@ == self.entries@[j].1@,
            decreases self.entries.len() - i,
        {
            entries.push((self.entries[i].0.clone(), self.entries[i].1.clone()));
            i = i + 1;
        }
        assert(Seq::new(entries@.len(), |j: int| (entries@[j].0@, entries@[j].1@)) =~= self@);
        StrMap { entries }
    }
}

} // verus!
