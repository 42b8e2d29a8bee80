//! Client configuration: layer sources (registries) and the global directories.
use vstd::prelude::*;
use crate::text::{chars_of, owned, concat2, string_of, sub_vec, str_eq};

verus! {

/// An auth token for a source.
#[derive(Debug, Clone)]
pub struct SourceAuth {
    pub token: String,
}

/// A registry of layers.
#[derive(Debug, Clone)]
pub struct Source {
    pub name: String,
    pub url: String,
    pub default: bool,
    pub auth: Option<SourceAuth>,
}

/// The client configuration.
#[derive(Debug, Clone)]
pub struct Config {
    pub sources: Vec<Source>,
}

// ───────────────────────── paths ─────────────────────────

/// `Path::join` on Unix: an absolute `b` replaces `a`; otherwise a `/` separates them
/// unless `a` is empty or already ends with one.
pub open spec fn path_join(a: Seq<char>, b: Seq<char>) -> Seq<char> {
    if b.len() > 0 && b[0] == '/' {
        b
    } else if a.len() == 0 {
        b
    } else if a.last() == '/' {
        a + b
    } else {
        a + "/"@ + b
    }
}

/// Joins two paths.
pub fn join_path(a: &str, b: &str) -> (r: String)
    ensures
        r@ == path_join(a@, b@),
{
    let va = chars_of(a);
    let vb = chars_of(b);
    if vb.len() > 0 && vb[0] == '/' {
        owned(b)
    } else if va.len() == 0 {
        owned(b)
    } else if va[va.len() - 1] == '/' {
        concat2(a, b)
    } else {
        let a2 = concat2(a, "/");
        concat2(a2.as_str(), b)
    }
}

/// The user's home directory (`dirs::home_dir`), rendered as text; it depends on the
/// environment, so nothing is stated of it.
#[verifier::external_body]
fn home_dir() -> (r: Option<String>) {
    dirs::home_dir().map(|p| p.to_string_lossy().into_owned())
}

/// `~/.prompthub` for a given home directory (`.` when there is none).
pub open spec fn spec_hub_dir(home: Option<Seq<char>>) -> Seq<char> {
    path_join(
        match home {
            Some(h) => h,
            None => "."@,
        },
        ".prompthub"@,
    )
}

/// `.prompthub` under the given home directory, or under `.` when there is none.
pub fn hub_dir_from_home(home: Option<String>) -> (r: String)
    ensures
        r@ == spec_hub_dir(
            match home {
                Some(h) => Some(h@),
                None => None,
            },
        ),
{
    match home {
        Some(h) => join_path(h.as_str(), ".prompthub"),
        None => join_path(".", ".prompthub"),
    }
}

/// Returns ~/.prompthub/
pub fn global_hub_dir() -> (r: String)
    ensures
        exists|h: Option<Seq<char>>| r@ == spec_hub_dir(h),
{
    let home = home_dir();
    let ghost h = match &home {
        Some(x) => Some(x@),
        None => None,
    };
    let r = hub_dir_from_home(home);
    assert(r@ == spec_hub_dir(h));
    r
}

/// Returns ~/.prompthub/layers/
pub fn global_layers_dir() -> (r: String)
    ensures
        exists|h: Option<Seq<char>>| r@ == path_join(spec_hub_dir(h), "layers"@),
{
    let hub = global_hub_dir();
    join_path(hub.as_str(), "layers")
}

/// Returns ~/.prompthub/config.yaml
pub fn global_config_path() -> (r: String)
    ensures
        exists|h: Option<Seq<char>>| r@ == path_join(spec_hub_dir(h), "config.yaml"@),
{
    let hub = global_hub_dir();
    join_path(hub.as_str(), "config.yaml")
}

// ───────────────────────── sources ─────────────────────────

/// Trailing `/` characters removed (`trim_end_matches('/')`).
pub open spec fn strip_slashes(s: Seq<char>) -> Seq<char>
    decreases s.len(),
{
    if s.len() > 0 && s.last() == '/' {
        strip_slashes(s.drop_last())
    } else {
        s
    }
}

proof fn lemma_strip_slashes_take(s: Seq<char>, k: int)
    requires
        0 <= k <= s.len(),
        forall|j: int| k <= j < s.len() ==> s[j] == '/',
    ensures
        strip_slashes(s) == strip_slashes(s.take(k)),
    decreases s.len() - k,
{
    if k < s.len() {
        lemma_strip_slashes_take(s.drop_last(), k);
        assert(s.drop_last().take(k) =~= s.take(k));
    } else {
        assert(s.take(k) =~= s);
    }
}

/// `trim_end_matches('/')`.
pub fn strip_trailing_slashes(s: &str) -> (r: String)
    ensures
        r@ == strip_slashes(s@),
{
    let v = chars_of(s);
    let mut k = v.len();
    while k > 0 && v[k - 1] == '/'
        invariant
            k <= v.len(),
            forall|j: int| k <= j < v.len() ==> v@[j] == '/',
        decreases k,
    {
        k = k - 1;
    }
    proof {
        lemma_strip_slashes_take(v@, k as int);
        let u = v@.take(k as int);
        if u.len() > 0 {
            assert(u.last() == v@[k - 1]);
        }
    }
    let t = sub_vec(&v, 0, k);
    assert(t@ =~= v@.take(k as int));
    string_of(&t)
}

/// Index of the first source marked default, else 0 when there is a source.
pub open spec fn default_index(sources: Seq<Source>) -> Option<int> {
    if exists|i: int| 0 <= i < sources.len() && sources[i].default {
        Some(choose|i: int| 0 <= i < sources.len() && sources[i].default
            && forall|j: int| 0 <= j < i ==> !sources[j].default)
    } else if sources.len() > 0 {
        Some(0)
    } else {
        None
    }
}

/// Index of the first source whose URL matches `url`, trailing slashes ignored on both sides.
pub open spec fn url_index(sources: Seq<Source>, url: Seq<char>) -> Option<int> {
    if exists|i: int| 0 <= i < sources.len() && strip_slashes(sources[i].url@) == strip_slashes(url) {
        Some(choose|i: int| 0 <= i < sources.len() && strip_slashes(sources[i].url@) == strip_slashes(url)
            && forall|j: int| 0 <= j < i ==> strip_slashes(sources[j].url@) != strip_slashes(url))
    } else {
        None
    }
}

impl Config {
    /// The built-in configuration: the official source, marked default.
    pub fn default_config() -> (r: Config)
        ensures
            r.sources@.len() == 1,
            r.sources@[0].name@ == "official"@,
            r.sources@[0].url@ == "https://raw.githubusercontent.com/prompthub/layers/main"@,
            r.sources@[0].default,
            r.sources@[0].auth is None,
    {
        let mut sources: Vec<Source> = Vec::new();
        sources.push(
            Source {
                name: owned("official"),
                url: owned("https://raw.githubusercontent.com/prompthub/layers/main"),
                default: true,
                auth: None,
            },
        );
        Config { sources }
    }

    /// The first source marked default, else the first source.
    pub fn default_source(&self) -> (r: Option<&Source>)
        ensures
            match default_index(self.sources@) {
                Some(i) => r matches Some(s) && *s == self.sources@[i],
                None => r is None,
            },
    {
        let mut i: usize = 0;
        while i < self.sources.len()
            invariant
                i <= self.sources.len(),
                forall|j: int| 0 <= j < i ==> !self.sources@[j].default,
            decreases self.sources.len() - i,
        {
            if self.sources[i].default {
                proof {
                    let k = choose|k: int| 0 <= k < self.sources@.len() && self.sources@[k].default
                        && forall|j: int| 0 <= j < k ==> !self.sources@[j].default;
                    if k < i {
                    } else if k > i {
                        assert(!self.sources@[i as int].default);
                    }
                }
                return Some(&self.sources[i]);
            }
            i = i + 1;
        }
        if self.sources.len() > 0 {
            Some(&self.sources[0])
        } else {
            None
        }
    }

    fn url_position(&self, url: &str) -> (r: Option<usize>)
        ensures
            r matches Some(k) ==> k < self.sources@.len(),
            match url_index(self.sources@, url@) {
                Some(i) => r matches Some(k) && k as int == i,
                None => r is None,
            },
    {
        let normalized = strip_trailing_slashes(url);
        let mut i: usize = 0;
        while i < self.sources.len()
            invariant
                i <= self.sources.len(),
                normalized@ == strip_slashes(url@),
                forall|j: int| 0 <= j < i ==> strip_slashes(self.sources@[j].url@) != strip_slashes(url@),
            decreases self.sources.len() - i,
        {
            let s = strip_trailing_slashes(self.sources[i].url.as_str());
            if str_eq(s.as_str(), normalized.as_str()) {
                proof {
                    let k = choose|k: int| 0 <= k < self.sources@.len()
                        && strip_slashes(self.sources@[k].url@) == strip_slashes(url@)
                        && forall|j: int| 0 <= j < k ==> strip_slashes(self.sources@[j].url@) != strip_slashes(url@);
                    if k > i {
                        assert(strip_slashes(self.sources@[i as int].url@) != strip_slashes(url@));
                    }
                }
                return Some(i);
            }
            i = i + 1;
        }
        None
    }

    /// Finds a source whose URL matches `url` (trailing slashes are ignored on both sides).
    pub fn find_source_by_url(&self, url: &str) -> (r: Option<&Source>)
        ensures
            match url_index(self.sources@, url@) {
                Some(i) => r matches Some(s) && *s == self.sources@[i],
                None => r is None,
            },
    {
        match self.url_position(url) {
            Some(i) => Some(&self.sources[i]),
            None => None,
        }
    }

    /// Mutable version of `find_source_by_url`.
    pub fn find_source_by_url_mut(&mut self, url: &str) -> (r: Option<&mut Source>)
        ensures
            match url_index(old(self).sources@, url@) {
                Some(i) => r matches Some(s) && *s == old(self).sources@[i]
                    && final(self).sources@ == old(self).sources@.update(i, *final(s)),
                None => r is None && *final(self) == *old(self),
            },
    {
        match self.url_position(url) {
            Some(i) => Some(&mut self.sources[i]),
            None => None,
        }
    }
}

} // verus!
