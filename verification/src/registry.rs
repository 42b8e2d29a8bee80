//! The layer registry server's logic: configuration values, bearer tokens, storage keys
//! and the grouping of stored versions into layer summaries.
use vstd::prelude::*;
use vstd::string::StrSliceExecFns;
use crate::text::{chars_of, owned, concat2, concat3, has_prefix, starts_with_vec, seq_lt, str_lt, str_eq};

verus! {

// ───────────────────────── configuration ─────────────────────────

/// Server settings.
#[derive(Debug, Clone)]
pub struct ServerConfig {
    pub port: u16,
    pub read_only: bool,
}

/// Where layer files are stored.
#[derive(Debug, Clone)]
pub enum StorageConfig {
    S3 { endpoint: String, bucket: String, access_key: String, secret_key: String, region: String },
    Filesystem { path: String },
}

/// The metadata database.
#[derive(Debug, Clone)]
pub struct DatabaseConfig {
    pub path: String,
}

/// Authentication settings.
#[derive(Debug, Clone)]
pub struct AuthConfig {
    pub pull_requires_auth: bool,
    pub admin_token: String,
}

/// Logging settings.
#[derive(Debug, Clone)]
pub struct LogConfig {
    pub level: String,
}

/// The registry configuration.
#[derive(Debug, Clone)]
pub struct RegistryConfig {
    pub server: ServerConfig,
    pub storage: StorageConfig,
    pub database: DatabaseConfig,
    pub auth: AuthConfig,
    pub log: LogConfig,
}

/// The default port.
pub fn default_port() -> (r: u16)
    ensures
        r == 8080,
{
    8080
}

/// The default S3 region.
pub fn default_region() -> (r: String)
    ensures
        r@ == "us-east-1"@,
{
    owned("us-east-1")
}

/// The default log level.
pub fn default_log_level() -> (r: String)
    ensures
        r@ == "info"@,
{
    owned("info")
}

impl Default for LogConfig {
    fn default() -> (r: Self)
        ensures
            r.level@ == "info"@,
    {
        LogConfig { level: default_log_level() }
    }
}

// ───────────────────────── requests and responses ─────────────────────────

/// A login request.
#[derive(Debug, Clone)]
pub struct LoginRequest {
    pub username: String,
    pub password: String,
}

/// An issued token.
#[derive(Debug, Clone)]
pub struct TokenResponse {
    pub token: String,
    pub expires_at: Option<String>,
}

/// A request for a long-lived token.
#[derive(Debug, Clone)]
pub struct IssueTokenRequest {
    pub name: String,
    pub expires_in_days: Option<i64>,
}

/// A search query on layers.
#[derive(Debug, Clone)]
pub struct SearchQuery {
    pub q: Option<String>,
}

// ───────────────────────── authentication ─────────────────────────

/// The token of an `Authorization: Bearer <token>` header value.
pub open spec fn spec_bearer(header: Option<Seq<char>>) -> Option<Seq<char>> {
    match header {
        Some(h) => if has_prefix(h, "Bearer "@) {
            Some(h.skip(7))
        } else {
            None
        },
        None => None,
    }
}

/// Extracts the Bearer token string from an Authorization header value.
pub fn extract_bearer(header: Option<&str>) -> (r: Option<&str>)
    ensures
        match spec_bearer(
            match header {
                Some(h) => Some(h@),
                None => None,
            },
        ) {
            Some(t) => r matches Some(x) && x@ == t,
            None => r is None,
        },
{
    match header {
        None => None,
        Some(h) => {
            let hv = chars_of(h);
            let pv = chars_of("Bearer ");
            proof {
                reveal_strlit("Bearer ");
            }
            if starts_with_vec(&hv, &pv) {
                let n = h.unicode_len();
                Some(h.substring_char(7, n))
            } else {
                None
            }
        },
    }
}

/// What a request's credentials amount to before the token database is asked.
#[derive(Debug, PartialEq, Eq)]
pub enum AuthCheck {
    /// No bearer token: unauthorized.
    Missing,
    /// The configured admin token: always valid.
    Admin,
    /// Another token: valid only if the token database knows it.
    Lookup(String),
}

/// The header as a plain value.
pub open spec fn header_view(header: Option<&str>) -> Option<Seq<char>> {
    match header {
        Some(h) => Some(h@),
        None => None,
    }
}

/// `c` is what the credentials of a request amount to before the token database is asked.
pub open spec fn is_auth_check(header: Option<Seq<char>>, admin: Seq<char>, c: AuthCheck) -> bool {
    match spec_bearer(header) {
        None => c == AuthCheck::Missing,
        Some(t) => if t == admin {
            c == AuthCheck::Admin
        } else {
            c matches AuthCheck::Lookup(x) && x@ == t
        },
    }
}

/// Validates a Bearer token from the Authorization header, as far as it can be done
/// without the database: no bearer token is unauthorized, the admin token is admitted,
/// any other token must be looked up.
pub fn auth_check(header: Option<&str>, admin_token: &str) -> (r: AuthCheck)
    ensures
        is_auth_check(header_view(header), admin_token@, r),
{
    match extract_bearer(header) {
        None => AuthCheck::Missing,
        Some(t) => {
            if str_eq(t, admin_token) {
                AuthCheck::Admin
            } else {
                AuthCheck::Lookup(owned(t))
            }
        },
    }
}

/// Whether a requested layer file is one the registry serves.
pub fn is_layer_file(filename: &str) -> (b: bool)
    ensures
        b == (filename@ == "layer.yaml"@ || filename@ == "prompt.md"@),
{
    str_eq(filename, "layer.yaml") || str_eq(filename, "prompt.md")
}

// ───────────────────────── storage ─────────────────────────

/// `layers/{namespace}/{name}/{version}/{filename}`.
pub open spec fn spec_layer_key(namespace: Seq<char>, name: Seq<char>, version: Seq<char>, filename: Seq<char>) -> Seq<char> {
    "layers/"@ + namespace + "/"@ + name + "/"@ + version + "/"@ + filename
}

/// Builds the S3-style object key for a layer file.
pub fn layer_key(namespace: &str, name: &str, version: &str, filename: &str) -> (r: String)
    ensures
        r@ == spec_layer_key(namespace@, name@, version@, filename@),
{
    let a = concat3("layers/", namespace, "/");
    let b = concat3(a.as_str(), name, "/");
    let c = concat3(b.as_str(), version, "/");
    concat2(c.as_str(), filename)
}

/// Local filesystem storage backend (development / small teams).
#[derive(Debug, Clone)]
pub struct FilesystemStorage {
    base: String,
}

impl FilesystemStorage {
    /// A storage rooted at `base`.
    pub fn new(base: String) -> (r: FilesystemStorage)
        ensures
            r.base_view() == base@,
    {
        FilesystemStorage { base }
    }

    /// The root directory.
    pub closed spec fn base_view(&self) -> Seq<char> {
        self.base@
    }

    /// The root directory.
    pub fn base_dir(&self) -> (r: &String)
        ensures
            r@ == self.base_view(),
    {
        &self.base
    }
}

/// The storage backends.
#[derive(Debug, Clone)]
pub enum StorageBackend {
    Filesystem(FilesystemStorage),
}

// ───────────────────────── layer summaries ─────────────────────────

/// A layer and its stored versions.
#[derive(Debug, Clone)]
pub struct LayerSummary {
    pub namespace: String,
    pub name: String,
    pub latest: String,
    pub versions: Vec<String>,
}

/// A group of versions of one layer: (namespace, name, versions).
pub type Group = (Seq<char>, Seq<char>, Seq<Seq<char>>);

/// `(ns1, n1) < (ns2, n2)`, the order of a map keyed by the pair.
pub open spec fn key_lt(ns1: Seq<char>, n1: Seq<char>, ns2: Seq<char>, n2: Seq<char>) -> bool {
    seq_lt(ns1, ns2) || (ns1 == ns2 && seq_lt(n1, n2))
}

/// Index of the group for `(ns, n)`, or -1.
pub open spec fn group_index(g: Seq<Group>, ns: Seq<char>, n: Seq<char>) -> int
    decreases g.len(),
{
    if g.len() == 0 {
        -1
    } else if g[0].0 == ns && g[0].1 == n {
        0
    } else {
        let r = group_index(g.drop_first(), ns, n);
        if r < 0 {
            -1
        } else {
            r + 1
        }
    }
}

/// Index of the first group whose key is greater than `(ns, n)`, or the length.
pub open spec fn insert_pos(g: Seq<Group>, ns: Seq<char>, n: Seq<char>) -> int
    decreases g.len(),
{
    if g.len() == 0 {
        0
    } else if key_lt(ns, n, g[0].0, g[0].1) {
        0
    } else {
        insert_pos(g.drop_first(), ns, n) + 1
    }
}

/// Adding one row: its version is appended to its layer's group, or a new group is
/// inserted in key order.
pub open spec fn group_add(g: Seq<Group>, ns: Seq<char>, n: Seq<char>, v: Seq<char>) -> Seq<Group> {
    let i = group_index(g, ns, n);
    if 0 <= i < g.len() {
        g.update(i, (ns, n, g[i].2.push(v)))
    } else {
        let p = insert_pos(g, ns, n);
        g.take(p) + seq![(ns, n, seq![v])] + g.skip(p)
    }
}

/// Grouping rows (namespace, name, version) in order.
pub open spec fn group_rows(rows: Seq<(Seq<char>, Seq<char>, Seq<char>)>) -> Seq<Group>
    decreases rows.len(),
{
    if rows.len() == 0 {
        seq![]
    } else {
        let r = rows.last();
        group_add(group_rows(rows.drop_last()), r.0, r.1, r.2)
    }
}

proof fn lemma_group_index_at(g: Seq<Group>, ns: Seq<char>, n: Seq<char>, i: int)
    requires
        0 <= i < g.len(),
        g[i].0 == ns && g[i].1 == n,
        forall|j: int| 0 <= j < i ==> !(g[j].0 == ns && g[j].1 == n),
    ensures
        group_index(g, ns, n) == i,
    decreases i,
{
    if i > 0 {
        lemma_group_index_at(g.drop_first(), ns, n, i - 1);
    }
}

proof fn lemma_group_index_none(g: Seq<Group>, ns: Seq<char>, n: Seq<char>)
    requires
        forall|j: int| 0 <= j < g.len() ==> !(g[j].0 == ns && g[j].1 == n),
    ensures
        group_index(g, ns, n) == -1,
    decreases g.len(),
{
    if g.len() > 0 {
        lemma_group_index_none(g.drop_first(), ns, n);
    }
}

proof fn lemma_insert_pos_at(g: Seq<Group>, ns: Seq<char>, n: Seq<char>, p: int)
    requires
        0 <= p <= g.len(),
        forall|j: int| 0 <= j < p ==> !key_lt(ns, n, g[j].0, g[j].1),
        p < g.len() ==> key_lt(ns, n, g[p].0, g[p].1),
    ensures
        insert_pos(g, ns, n) == p,
    decreases p,
{
    if p > 0 {
        lemma_insert_pos_at(g.drop_first(), ns, n, p - 1);
    }
}

/// The stored rows as plain values.
pub open spec fn rows_view(rows: Seq<(String, String, String)>) -> Seq<(Seq<char>, Seq<char>, Seq<char>)> {
    Seq::new(rows.len(), |i: int| (rows[i].0@, rows[i].1@, rows[i].2@))
}

/// The groups as summaries' views.
pub open spec fn groups_view(v: Seq<(String, String, Vec<String>)>) -> Seq<Group> {
    Seq::new(v.len(), |i: int| (v[i].0@, v[i].1@, v[i].2.deep_view()))
}

/// Groups stored `(namespace, name, version)` rows into per-layer summaries, ordered by
/// (namespace, name); each summary lists the versions in row order, and its latest version
/// is the last of them (rows come ordered by push time).
pub fn summarize_layers(rows: &Vec<(String, String, String)>) -> (r: Vec<LayerSummary>)
    ensures
        r@.len() == group_rows(rows_view(rows@)).len(),
        forall|i: int| 0 <= i < r@.len() ==> {
            let g = group_rows(rows_view(rows@))[i];
            &&& (#[trigger] r@[i]).namespace@ == g.0
            &&& r@[i].name@ == g.1
            &&& r@[i].versions.deep_view() == g.2
            &&& r@[i].latest@ == g.2.last()
        },
{
    let ghost rv = rows_view(rows@);
    let mut groups: Vec<(String, String, Vec<String>)> = Vec::new();
    let mut i: usize = 0;
    assert(groups_view(groups@) =~= group_rows(rv.take(0)));
    while i < rows.len()
        invariant
            i <= rows.len(),
            rv == rows_view(rows@),
            groups_view(groups@) == group_rows(rv.take(i as int)),
            forall|j: int| 0 <= j < groups@.len() ==> groups@[j].2@.len() > 0,
        decreases rows.len() - i,
    {
        proof {
            assert(rv.take(i + 1).drop_last() =~= rv.take(i as int));
            assert(rv.take(i + 1).last() == rv[i as int]);
        }
        let ns = &rows[i].0;
        let nm = &rows[i].1;
        let ver = &rows[i].2;
        let ghost gv = groups_view(groups@);
        let mut k: usize = 0;
        while k < groups.len()
            invariant
                k <= groups.len(),
                gv == groups_view(groups@),
                forall|j: int| 0 <= j < k ==> !(gv[j].0 == ns@ && gv[j].1 == nm@),
            ensures
                k <= groups.len(),
                forall|j: int| 0 <= j < k ==> !(gv[j].0 == ns@ && gv[j].1 == nm@),
                k < groups.len() ==> (gv[k as int].0 == ns@ && gv[k as int].1 == nm@),
            decreases groups.len() - k,
        {
            if str_eq(groups[k].0.as_str(), ns.as_str()) && str_eq(groups[k].1.as_str(), nm.as_str()) {
                break;
            }
            k = k + 1;
        }
        if k < groups.len() && str_eq(groups[k].0.as_str(), ns.as_str()) && str_eq(groups[k].1.as_str(), nm.as_str()) {
            proof {
                lemma_group_index_at(gv, ns@, nm@, k as int);
            }
            let mut entry: (String, String, Vec<String>) = (String::new(), String::new(), Vec::new());
            std::mem::swap(&mut entry, &mut groups[k]);
            let ghost before = entry.2.deep_view();
            entry.2.push(ver.clone());
            assert(entry.2.deep_view() =~= before.push(ver@));
            groups.set(k, entry);
            assert(groups_view(groups@) =~= gv.update(k as int, (ns@, nm@, gv[k as int].2.push(ver@))));
        } else {
            proof {
                lemma_group_index_none(gv, ns@, nm@);
            }
            let mut p: usize = 0;
            while p < groups.len() && !(str_lt(ns.as_str(), groups[p].0.as_str()) || (str_eq(ns.as_str(), groups[p].0.as_str()) && str_lt(nm.as_str(), groups[p].1.as_str())))
                invariant
                    p <= groups.len(),
                    gv == groups_view(groups@),
                    forall|j: int| 0 <= j < p ==> !key_lt(ns@, nm@, gv[j].0, gv[j].1),
                decreases groups.len() - p,
            {
                p = p + 1;
            }
            proof {
                lemma_insert_pos_at(gv, ns@, nm@, p as int);
            }
            let mut vs: Vec<String> = Vec::new();
            vs.push(ver.clone());
            assert(vs.deep_view() =~= seq![ver@]);
            groups.insert(p, (ns.clone(), nm.clone(), vs));
            assert(groups_view(groups@) =~= gv.take(p as int) + seq![(ns@, nm@, seq![ver@])] + gv.skip(p as int));
        }
        i = i + 1;
    }
    assert(rv.take(rows.len() as int) =~= rv);
    let ghost gv = groups_view(groups@);
    let mut out: Vec<LayerSummary> = Vec::new();
    let mut j: usize = 0;
    while j < groups.len()
        invariant
            j <= groups.len(),
            gv == groups_view(groups@),
            forall|q: int| 0 <= q < groups@.len() ==> groups@[q].2@.len() > 0,
            out@.len() == j,
            forall|q: int| 0 <= q < j ==> {
                &&& out@[q].namespace@ == gv[q].0
                &&& out@[q].name@ == gv[q].1
                &&& out@[q].versions.deep_view() == gv[q].2
                &&& out@[q].latest@ == gv[q].2.last()
            },
        decreases groups.len() - j,
    {
        let g = &groups[j];
        let n = g.2.len();
        let latest = g.2[n - 1].clone();
        let mut versions: Vec<String> = Vec::new();
        let mut t: usize = 0;
        while t < n
            invariant
                t <= n,
                n == g.2@.len(),
                versions.deep_view() == g.2.deep_view().take(t as int),
            decreases n - t,
        {
            let ghost before = versions.deep_view();
            versions.push(g.2[t].clone());
            assert(versions.deep_view() =~= before.push(g.2@[t as int]@));
            t = t + 1;
            assert(versions.deep_view() =~= g.2.deep_view().take(t as int));
        }
        assert(g.2.deep_view().take(n as int) =~= g.2.deep_view());
        out.push(LayerSummary { namespace: g.0.clone(), name: g.1.clone(), latest, versions });
        j = j + 1;
    }
    out
}

// ───────────────────────── errors ─────────────────────────

/// The errors of the registry.
#[derive(Debug, Clone)]
pub enum RegistryError {
    Unauthorized,
    NotFound(String),
    Conflict(String),
    BadRequest(String),
    Database(String),
    Storage(String),
    Internal(String),
}

/// The message of a registry error.
pub open spec fn registry_error_text(e: RegistryError) -> Seq<char> {
    match e {
        RegistryError::Unauthorized => "unauthorized"@,
        RegistryError::NotFound(m) => "layer not found: "@ + m@,
        RegistryError::Conflict(m) => "version already exists: "@ + m@,
        RegistryError::BadRequest(m) => "bad request: "@ + m@,
        RegistryError::Database(m) => "database error: "@ + m@,
        RegistryError::Storage(m) => "storage error: "@ + m@,
        RegistryError::Internal(m) => "internal error: "@ + m@,
    }
}

/// The HTTP status and the message sent for a registry error: client errors carry their
/// message; server-side failures are reported without their details.
pub open spec fn spec_error_response(e: RegistryError) -> (u16, Seq<char>) {
    match e {
        RegistryError::Unauthorized => (401, registry_error_text(e)),
        RegistryError::NotFound(_) => (404, registry_error_text(e)),
        RegistryError::Conflict(_) => (409, registry_error_text(e)),
        RegistryError::BadRequest(_) => (400, registry_error_text(e)),
        RegistryError::Database(_) => (500, "internal error"@),
        RegistryError::Storage(_) => (500, "storage error"@),
        RegistryError::Internal(_) => (500, "internal error"@),
    }
}

impl RegistryError {
    /// The message shown for this error.
    pub fn message(&self) -> (r: String)
        ensures
            r@ == registry_error_text(*self),
    {
        match self {
            RegistryError::Unauthorized => owned("unauthorized"),
            RegistryError::NotFound(m) => concat2("layer not found: ", m.as_str()),
            RegistryError::Conflict(m) => concat2("version already exists: ", m.as_str()),
            RegistryError::BadRequest(m) => concat2("bad request: ", m.as_str()),
            RegistryError::Database(m) => concat2("database error: ", m.as_str()),
            RegistryError::Storage(m) => concat2("storage error: ", m.as_str()),
            RegistryError::Internal(m) => concat2("internal error: ", m.as_str()),
        }
    }

    /// The HTTP status and message of the response for this error.
    pub fn response(&self) -> (r: (u16, String))
        ensures
            (r.0, r.1@) == spec_error_response(*self),
    {
        match self {
            RegistryError::Unauthorized => (401, self.message()),
            RegistryError::NotFound(_) => (404, self.message()),
            RegistryError::Conflict(_) => (409, self.message()),
            RegistryError::BadRequest(_) => (400, self.message()),
            RegistryError::Database(_) => (500, owned("internal error")),
            RegistryError::Storage(_) => (500, owned("storage error")),
            RegistryError::Internal(_) => (500, owned("internal error")),
        }
    }
}

// ───────────────────────── passwords and tokens ─────────────────────────

/// Whether `bcrypt::verify` accepts the password for the hash (an unreadable hash is
/// not accepted).
pub uninterp spec fn bcrypt_accepts(password: Seq<char>, hash: Seq<char>) -> bool;

/// `bcrypt::verify(password, hash).unwrap_or(false)`: whether the password matches the
/// hash. A function of the two texts alone.
#[verifier::external_body]
fn bcrypt_verify(password: &str, hash: &str) -> (b: bool)
    ensures
        b == bcrypt_accepts(password@, hash@),
{
    bcrypt::verify(password, hash).unwrap_or(false)
}

/// `bcrypt::hash(password, bcrypt::DEFAULT_COST)`: the hash carries a random salt, so
/// nothing fixes its text; a hash it returns is accepted by `bcrypt::verify` for the same
/// password. The error text is bcrypt's.
#[verifier::external_body]
fn bcrypt_hash(password: &str) -> (r: Result<String, String>)
    ensures
        r matches Ok(h) ==> bcrypt_accepts(password@, h@),
{
    match bcrypt::hash(password, bcrypt::DEFAULT_COST) {
        Ok(h) => Ok(h),
        Err(e) => Err(e.to_string()),
    }
}

/// Hashes a password using bcrypt.
pub fn hash_password(password: &str) -> (r: Result<String, RegistryError>)
    ensures
        match r {
            Ok(h) => bcrypt_accepts(password@, h@),
            Err(e) => e is Internal,
        },
{
    match bcrypt_hash(password) {
        Ok(h) => Ok(h),
        Err(e) => Err(RegistryError::Internal(e)),
    }
}

/// Verifies a password against a bcrypt hash.
pub fn verify_password(password: &str, hash: &str) -> (b: bool)
    ensures
        b == bcrypt_accepts(password@, hash@),
{
    bcrypt_verify(password, hash)
}

/// An ASCII letter or digit.
pub open spec fn ascii_alnum(c: char) -> bool {
    ('a' <= c <= 'z') || ('A' <= c <= 'Z') || ('0' <= c <= '9')
}

/// `rand::thread_rng().sample_iter(&rand::distributions::Alphanumeric).take(32)`: 32
/// random ASCII letters and digits.
#[verifier::external_body]
fn random_alphanumeric_32() -> (r: String)
    ensures
        r@.len() == 32,
        forall|i: int| 0 <= i < 32 ==> ascii_alnum(#[trigger] r@[i]),
{
    let bytes: Vec<u8> = rand::Rng::sample_iter(rand::thread_rng(), &rand::distributions::Alphanumeric)
        .take(32)
        .collect();
    String::from_utf8(bytes).unwrap_or_default()
}

/// A fresh API token: `phrt_` and 32 random ASCII letters and digits.
pub fn generate_token() -> (r: String)
    ensures
        r@.len() == 37,
        r@.take(5) == "phrt_"@,
        forall|i: int| 5 <= i < 37 ==> ascii_alnum(#[trigger] r@[i]),
{
    let tail = random_alphanumeric_32();
    proof {
        reveal_strlit("phrt_");
    }
    let r = concat2("phrt_", tail.as_str());
    assert(r@.take(5) =~= "phrt_"@);
    assert forall|i: int| 5 <= i < 37 implies ascii_alnum(#[trigger] r@[i]) by {
        assert(r@[i] == tail@[i - 5]);
    }
    r
}

/// What a request's credentials give once the token database has been asked about a
/// non-admin token (`lookup`: the user of a valid token, `None` for an unknown, revoked or
/// expired one): missing credentials and unknown tokens are unauthorized, the admin token
/// stands for no user.
pub open spec fn spec_auth_result(check: AuthCheck, lookup: Option<Option<i64>>) -> Result<Option<i64>, ()> {
    match check {
        AuthCheck::Missing => Err(()),
        AuthCheck::Admin => Ok(None),
        AuthCheck::Lookup(_) => match lookup {
            Some(u) => Ok(u),
            None => Err(()),
        },
    }
}

/// Completes authentication: returns the user id (`None` for the admin token).
pub fn auth_result(check: &AuthCheck, lookup: Option<Option<i64>>) -> (r: Result<Option<i64>, RegistryError>)
    ensures
        match spec_auth_result(*check, lookup) {
            Ok(u) => r == Ok::<Option<i64>, RegistryError>(u),
            Err(_) => r matches Err(RegistryError::Unauthorized),
        },
{
    match check {
        AuthCheck::Missing => Err(RegistryError::Unauthorized),
        AuthCheck::Admin => Ok(None),
        AuthCheck::Lookup(_) => match lookup {
            Some(u) => Ok(u),
            None => Err(RegistryError::Unauthorized),
        },
    }
}

/// Only the admin token may issue long-lived tokens.
pub fn require_admin(header: Option<&str>, admin_token: &str) -> (r: Result<(), RegistryError>)
    ensures
        r is Ok <==> spec_bearer(
            match header {
                Some(h) => Some(h@),
                None => None,
            },
        ) == Some(admin_token@),
        r matches Err(e) ==> e is Unauthorized,
{
    match extract_bearer(header) {
        Some(t) => {
            if str_eq(t, admin_token) {
                Ok(())
            } else {
                Err(RegistryError::Unauthorized)
            }
        },
        None => Err(RegistryError::Unauthorized),
    }
}

/// Checks a login: the user must exist and the password must match its hash. Returns the
/// user id.
pub fn login_check(user: Option<(i64, String)>, password: &str) -> (r: Result<i64, RegistryError>)
    ensures
        match user {
            Some((id, h)) => if bcrypt_accepts(password@, h@) {
                r == Ok::<i64, RegistryError>(id)
            } else {
                r matches Err(RegistryError::Unauthorized)
            },
            None => r matches Err(RegistryError::Unauthorized),
        },
{
    match user {
        Some((id, h)) => {
            if verify_password(password, h.as_str()) {
                Ok(id)
            } else {
                Err(RegistryError::Unauthorized)
            }
        },
        None => Err(RegistryError::Unauthorized),
    }
}

// ───────────────────────── token expiry ─────────────────────────

/// The instant an RFC 3339 text denotes, as (seconds since the Unix epoch, nanoseconds),
/// or `None` when `chrono` does not read it.
pub uninterp spec fn rfc3339_instant(s: Seq<char>) -> Option<(i64, u32)>;

/// `chrono::DateTime::parse_from_rfc3339`, then `timestamp` and `timestamp_subsec_nanos`:
/// a function of the text alone. The error text is chrono's.
#[verifier::external_body]
fn parse_rfc3339(s: &str) -> (r: Result<(i64, u32), String>)
    ensures
        match r {
            Ok(t) => rfc3339_instant(s@) == Some(t),
            Err(_) => rfc3339_instant(s@) is None,
        },
{
    match chrono::DateTime::parse_from_rfc3339(s) {
        Ok(t) => Ok((t.timestamp(), t.timestamp_subsec_nanos())),
        Err(e) => Err(e.to_string()),
    }
}

/// Whether instant `a` comes before instant `b`.
pub open spec fn instant_before(a: (i64, u32), b: (i64, u32)) -> bool {
    a.0 < b.0 || (a.0 == b.0 && a.1 < b.1)
}

/// Whether a stored token is still valid at `now`: not revoked, and not past its expiry.
/// An expiry that does not read as RFC 3339 is an internal error.
pub fn token_valid(revoked: i64, expires_at: Option<&str>, now: (i64, u32)) -> (r: Result<bool, RegistryError>)
    ensures
        revoked != 0 ==> r == Ok::<bool, RegistryError>(false),
        revoked == 0 ==> match expires_at {
            None => r == Ok::<bool, RegistryError>(true),
            Some(e) => match rfc3339_instant(e@) {
                Some(t) => r == Ok::<bool, RegistryError>(!instant_before(t, now)),
                None => r matches Err(RegistryError::Internal(_)),
            },
        },
{
    if revoked != 0 {
        return Ok(false);
    }
    match expires_at {
        None => Ok(true),
        Some(e) => match parse_rfc3339(e) {
            Ok(t) => Ok(!(t.0 < now.0 || (t.0 == now.0 && t.1 < now.1))),
            Err(m) => Err(RegistryError::Internal(m)),
        },
    }
}

// ───────────────────────── uploads ─────────────────────────

/// `ns/name/version`, the key of a conflicting upload.
pub open spec fn spec_upload_id(namespace: Seq<char>, name: Seq<char>, version: Seq<char>) -> Seq<char> {
    namespace + "/"@ + name + "/"@ + version
}

/// Checks an upload before storing it: a read-only registry refuses it, both files must be
/// present, and an existing version is never overwritten. Returns the two files.
pub fn check_upload(
    read_only: bool,
    layer_yaml: Option<Vec<u8>>,
    prompt_md: Option<Vec<u8>>,
    namespace: &str,
    name: &str,
    version: &str,
    exists: bool,
) -> (r: Result<(Vec<u8>, Vec<u8>), RegistryError>)
    ensures
        read_only ==> (r matches Err(RegistryError::BadRequest(m)) && m@ == "registry is read-only"@),
        !read_only && layer_yaml is None ==> (r matches Err(RegistryError::BadRequest(m))
            && m@ == "missing layer.yaml field"@),
        !read_only && layer_yaml is Some && prompt_md is None ==> (r matches Err(RegistryError::BadRequest(m))
            && m@ == "missing prompt.md field"@),
        !read_only && layer_yaml is Some && prompt_md is Some && exists ==> (r matches Err(RegistryError::Conflict(m))
            && m@ == spec_upload_id(namespace@, name@, version@)),
        !read_only && layer_yaml is Some && prompt_md is Some && !exists ==> (r matches Ok((y, p))
            && y@ == layer_yaml->0@ && p@ == prompt_md->0@),
{
    if read_only {
        return Err(RegistryError::BadRequest(owned("registry is read-only")));
    }
    let y = match layer_yaml {
        Some(y) => y,
        None => {
            return Err(RegistryError::BadRequest(owned("missing layer.yaml field")));
        },
    };
    let p = match prompt_md {
        Some(p) => p,
        None => {
            return Err(RegistryError::BadRequest(owned("missing prompt.md field")));
        },
    };
    if exists {
        let a = concat3(namespace, "/", name);
        return Err(RegistryError::Conflict(concat3(a.as_str(), "/", version)));
    }
    Ok((y, p))
}

/// The description recorded for an uploaded layer: none when it is empty.
pub fn upload_description(description: &str) -> (r: Option<String>)
    ensures
        description@.len() == 0 ==> r is None,
        description@.len() > 0 ==> (r matches Some(d) && d@ == description@),
{
    if description.is_empty() {
        None
    } else {
        Some(owned(description))
    }
}

/// The credentials check for a pull: none when pulling is open, else the check of the
/// request's `Authorization` header against the admin token.
pub fn pull_auth_check(config: &AuthConfig, header: Option<&str>) -> (r: Option<AuthCheck>)
    ensures
        !config.pull_requires_auth ==> r is None,
        config.pull_requires_auth ==> (r matches Some(c) && is_auth_check(header_view(header), config.admin_token@, c)),
{
    if !config.pull_requires_auth {
        return None;
    }
    Some(auth_check(header, config.admin_token.as_str()))
}

/// A header made of `Bearer ` and a token gives back exactly that token, and the admin
/// token sent that way is recognized as the admin's.
pub proof fn law_bearer_roundtrip(token: Seq<char>, admin: Seq<char>)
    ensures
        spec_bearer(Some("Bearer "@ + token)) == Some(token),
        is_auth_check(Some("Bearer "@ + admin), admin, AuthCheck::Admin),
{
    reveal_strlit("Bearer ");
    assert(("Bearer "@ + token).take(7) =~= "Bearer "@);
    assert(("Bearer "@ + token).skip(7) =~= token);
    assert(("Bearer "@ + admin).take(7) =~= "Bearer "@);
    assert(("Bearer "@ + admin).skip(7) =~= admin);
}

} // verus!
