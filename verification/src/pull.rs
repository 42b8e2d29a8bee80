//! Where a layer is pulled from: the version asked for and the download URL.
use vstd::prelude::*;
use crate::config::{Config, Source, strip_slashes, strip_trailing_slashes, default_index};
use crate::parser::LayerRef;
use crate::error::PromptHubError;
use crate::text::{owned, concat2, concat3, str_eq};

verus! {

/// The version pulled for a requested one: `latest` or empty fall back to `v1.0`, since no
/// remote index tells the latest version.
pub open spec fn spec_pull_version(version: Seq<char>) -> Seq<char> {
    if version == "latest"@ || version.len() == 0 {
        "v1.0"@
    } else {
        version
    }
}

/// Resolves the effective version string to use when pulling a layer.
pub fn resolve_pull_version(version: &str) -> (r: String)
    ensures
        r@ == spec_pull_version(version@),
{
    if str_eq(version, "latest") || version.is_empty() {
        owned("v1.0")
    } else {
        owned(version)
    }
}

/// `{base_url}/layers/{source}/{version}`, trailing slashes of the base URL removed.
pub open spec fn spec_layer_url_base(base_url: Seq<char>, source: Seq<char>, version: Seq<char>) -> Seq<char> {
    strip_slashes(base_url) + "/layers/"@ + source + "/"@ + version
}

/// Builds the base URL for downloading a specific layer version.
pub fn layer_url_base(base_url: &str, source: &str, version: &str) -> (r: String)
    ensures
        r@ == spec_layer_url_base(base_url@, source@, version@),
{
    let b = strip_trailing_slashes(base_url);
    let a = concat3(b.as_str(), "/layers/", source);
    concat3(a.as_str(), "/", version)
}

/// Extracts the auth token from a source, if any.
pub fn auth_token_for(source: &Source) -> (r: Option<&str>)
    ensures
        match source.auth {
            Some(a) => r matches Some(t) && t@ == a.token@,
            None => r is None,
        },
{
    match &source.auth {
        Some(a) => Some(a.token.as_str()),
        None => None,
    }
}

/// What pulling a layer fetches and where it goes.
#[derive(Debug)]
pub struct PullPlan {
    /// The name of the source pulled from.
    pub source_name: String,
    /// The URL of the layer's `layer.yaml`.
    pub yaml_url: String,
    /// The URL of the layer's `prompt.md`.
    pub prompt_url: String,
    /// The token sent as `Authorization: Bearer`, when the source has one.
    pub token: Option<String>,
    /// The version directory the layer is cached in, below the layer's source path.
    pub version: String,
}

/// Plans pulling a layer from the default source (the one marked default, else the first):
/// the version asked for (`latest` meaning `v1.0`), the two file URLs below the source's
/// URL, and the source's token. Fails when no source is configured.
pub fn plan_pull(layer_ref: &LayerRef, config: &Config) -> (r: Result<PullPlan, PromptHubError>)
    ensures
        match default_index(config.sources@) {
            None => r matches Err(PromptHubError::Other(m))
                && m@ == "No sources configured. Add a source to ~/.prompthub/config.yaml"@,
            Some(i) => r matches Ok(p) && {
                let s = config.sources@[i];
                let base = spec_layer_url_base(s.url@, layer_ref.source@, spec_pull_version(layer_ref.version@));
                &&& p.source_name@ == s.name@
                &&& p.version@ == spec_pull_version(layer_ref.version@)
                &&& p.yaml_url@ == base + "/layer.yaml"@
                &&& p.prompt_url@ == base + "/prompt.md"@
                &&& match s.auth {
                    Some(a) => p.token matches Some(t) && t@ == a.token@,
                    None => p.token is None,
                }
            },
        },
{
    let source = match config.default_source() {
        Some(s) => s,
        None => {
            return Err(PromptHubError::Other(owned("No sources configured. Add a source to ~/.prompthub/config.yaml")));
        },
    };
    let version = resolve_pull_version(layer_ref.version.as_str());
    let base = layer_url_base(source.url.as_str(), layer_ref.source.as_str(), version.as_str());
    let token = match auth_token_for(source) {
        Some(t) => Some(owned(t)),
        None => None,
    };
    Ok(PullPlan {
        source_name: source.name.clone(),
        yaml_url: concat2(base.as_str(), "/layer.yaml"),
        prompt_url: concat2(base.as_str(), "/prompt.md"),
        token,
        version,
    })
}

/// `HTTP <status> for <url>`, the error for a download that did not succeed.
pub fn http_error(status: &str, url: &str) -> (r: PromptHubError)
    ensures
        r matches PromptHubError::Other(m) && m@ == "HTTP "@ + status@ + " for "@ + url@,
{
    PromptHubError::Other(concat3(concat2("HTTP ", status).as_str(), " for ", url))
}

} // verus!
