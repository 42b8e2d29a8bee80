//! Push targets `namespace/name:version`.
use vstd::prelude::*;
use crate::error::PromptHubError;
use crate::text::{chars_of, string_of, owned, concat2, concat3, split_once, split_once_vec, lemma_split_once_concat, decimal, decimal_string};
use crate::config::{Source, strip_slashes, strip_trailing_slashes, path_join, join_path};

verus! {

/// Represents a parsed push target: `namespace/name:version`.
#[derive(Debug, Clone)]
pub struct PushTarget {
    pub namespace: String,
    pub name: String,
    pub version: String,
}

/// Result of a push operation.
#[derive(Debug)]
pub enum PushResult {
    /// Layer pushed successfully. Contains the source name.
    Success(String),
    /// Version already exists on the registry.
    AlreadyExists(String),
}

/// Parsing `namespace/name:version`: the version after the first `:`, the namespace before
/// the first `/`; all three must be non-empty.
pub open spec fn spec_push_target(s: Seq<char>) -> Result<(Seq<char>, Seq<char>, Seq<char>), Seq<char>> {
    match split_once(s, ':') {
        None => Err("push target must include version, e.g. base/my-expert:v1.0"@),
        Some((np, ver)) => match split_once(np, '/') {
            None => Err("push target must include namespace, e.g. base/my-expert:v1.0"@),
            Some((ns, nm)) => if ns.len() == 0 || nm.len() == 0 || ver.len() == 0 {
                Err("push target must be non-empty: namespace/name:version"@)
            } else {
                Ok((ns, nm, ver))
            },
        },
    }
}

impl PushTarget {
    /// Parses a push target string like `base/my-expert:v1.0`; all three components are
    /// required.
    pub fn parse(s: &str) -> (r: Result<PushTarget, PromptHubError>)
        ensures
            match spec_push_target(s@) {
                Ok((a, b, c)) => r matches Ok(t) && t.namespace@ == a && t.name@ == b && t.version@ == c,
                Err(m) => r matches Err(PromptHubError::Other(x)) && x@ == m,
            },
    {
        let v = chars_of(s);
        match split_once_vec(&v, ':') {
            None => Err(PromptHubError::Other(owned("push target must include version, e.g. base/my-expert:v1.0"))),
            Some((np, ver)) => match split_once_vec(&np, '/') {
                None => Err(PromptHubError::Other(owned("push target must include namespace, e.g. base/my-expert:v1.0"))),
                Some((ns, nm)) => {
                    if ns.len() == 0 || nm.len() == 0 || ver.len() == 0 {
                        Err(PromptHubError::Other(owned("push target must be non-empty: namespace/name:version")))
                    } else {
                        Ok(PushTarget { namespace: string_of(&ns), name: string_of(&nm), version: string_of(&ver) })
                    }
                },
            },
        }
    }

    /// The source path component used to locate the local layer directory, e.g. `base/my-expert`.
    pub fn source_path(&self) -> (r: String)
        ensures
            r@ == self.namespace@ + "/"@ + self.name@,
    {
        concat3(self.namespace.as_str(), "/", self.name.as_str())
    }
}

/// Writing a push target and parsing it back gives the same target, for non-empty parts
/// where the namespace has no `/` or `:` and the name has no `:`.
pub proof fn law_push_target_roundtrip(ns: Seq<char>, name: Seq<char>, version: Seq<char>)
    requires
        ns.len() > 0,
        name.len() > 0,
        version.len() > 0,
        !ns.contains('/'),
        !ns.contains(':'),
        !name.contains(':'),
    ensures
        spec_push_target(ns + "/"@ + name + ":"@ + version) == Ok::<(Seq<char>, Seq<char>, Seq<char>), Seq<char>>((ns, name, version)),
{
    assert(":"@ =~= seq![':']) by {
        reveal_strlit(":");
    }
    assert("/"@ =~= seq!['/']) by {
        reveal_strlit("/");
    }
    let np = ns + seq!['/'] + name;
    assert(!np.contains(':')) by {
        if np.contains(':') {
            let j = choose|j: int| 0 <= j < np.len() && np[j] == ':';
            if j < ns.len() {
                assert(ns[j] == ':');
            } else if j > ns.len() {
                assert(name[j - ns.len() - 1] == ':');
            }
        }
    }
    lemma_split_once_concat(np, ':', version);
    assert(ns + "/"@ + name + ":"@ + version =~= np + seq![':'] + version);
    lemma_split_once_concat(ns, '/', name);
}

/// The token a push sends: the source's own; without one the push is refused with a hint
/// to log in.
pub fn push_token(source: &Source) -> (r: Result<String, PromptHubError>)
    ensures
        match source.auth {
            Some(a) => r matches Ok(t) && t@ == a.token@,
            None => r matches Err(PromptHubError::Other(m)) && m@ == "No auth token for source '"@
                + source.name@ + "'. Run `ph login "@ + source.url@ + "` first."@,
        },
{
    match &source.auth {
        Some(a) => Ok(a.token.clone()),
        None => {
            let a = concat3("No auth token for source '", source.name.as_str(), "'. Run `ph login ");
            Err(PromptHubError::Other(concat3(a.as_str(), source.url.as_str(), "` first.")))
        },
    }
}

/// `{url}/layers/{namespace}/{name}/{version}`, trailing slashes of the URL removed.
pub open spec fn spec_push_url(url: Seq<char>, t: PushTarget) -> Seq<char> {
    strip_slashes(url) + "/layers/"@ + t.namespace@ + "/"@ + t.name@ + "/"@ + t.version@
}

/// The registry URL a layer version is uploaded to.
pub fn push_url(source: &Source, target: &PushTarget) -> (r: String)
    ensures
        r@ == spec_push_url(source.url@, *target),
{
    let b = strip_trailing_slashes(source.url.as_str());
    let a = concat3(b.as_str(), "/layers/", target.namespace.as_str());
    let c = concat3(a.as_str(), "/", target.name.as_str());
    concat3(c.as_str(), "/", target.version.as_str())
}

/// The local directories of a push: the layer's (`layers_dir/namespace/name`) and its
/// version's below it.
pub fn push_dirs(layers_dir: &str, target: &PushTarget) -> (r: (String, String))
    ensures
        r.0@ == path_join(layers_dir@, target.namespace@ + "/"@ + target.name@),
        r.1@ == path_join(r.0@, target.version@),
{
    let layer_dir = join_path(layers_dir, target.source_path().as_str());
    let version_dir = join_path(layer_dir.as_str(), target.version.as_str());
    (layer_dir, version_dir)
}

/// The error for a push whose layer directory is missing.
pub fn missing_layer_dir(layer_dir: &str) -> (r: PromptHubError)
    ensures
        r matches PromptHubError::Other(m) && m@ == "layer directory not found: "@ + layer_dir@,
{
    PromptHubError::Other(concat2("layer directory not found: ", layer_dir))
}

/// The error for a push whose version directory is missing.
pub fn missing_version_dir(target: &PushTarget, layer_dir: &str) -> (r: PromptHubError)
    ensures
        r matches PromptHubError::Other(m) && m@ == "version "@ + target.version@ + " not found in "@ + layer_dir@,
{
    PromptHubError::Other(concat3(concat2("version ", target.version.as_str()).as_str(), " not found in ", layer_dir))
}

/// What the registry's answer to an upload means: 201 is a success, 409 a version that
/// already exists, anything else an error with the status and the body.
pub fn push_outcome(status: u16, source_name: &str, body: &str) -> (r: Result<PushResult, PromptHubError>)
    ensures
        status == 201 ==> (r matches Ok(PushResult::Success(n)) && n@ == source_name@),
        status == 409 ==> (r matches Ok(PushResult::AlreadyExists(n)) && n@ == source_name@),
        status != 201 && status != 409 ==> (r matches Err(PromptHubError::Other(m))
            && m@ == "registry error "@ + decimal(status as nat) + ": "@ + body@),
{
    if status == 201 {
        Ok(PushResult::Success(owned(source_name)))
    } else if status == 409 {
        Ok(PushResult::AlreadyExists(owned(source_name)))
    } else {
        let code = decimal_string(status as usize);
        let a = concat3("registry error ", code.as_str(), ": ");
        Err(PromptHubError::Other(concat2(a.as_str(), body)))
    }
}

} // verus!
