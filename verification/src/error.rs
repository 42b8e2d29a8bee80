//! The error type of the library and its user-facing messages.
use vstd::prelude::*;
use crate::text::{concat2, concat3, owned};

verus! {

/// Errors of parsing, resolving, merging and rendering prompts.
#[derive(Debug, Clone)]
pub enum PromptHubError {
    LayerNotFound(String),
    ParseError(String),
    ValidationError(String),
    ConflictError(String, String),
    Io(String),
    Yaml(String),
    Json(String),
    Network(String),
    Other(String),
}

/// The message shown for an error.
pub open spec fn error_text(e: PromptHubError) -> Seq<char> {
    match e {
        PromptHubError::LayerNotFound(m) => "Layer not found: "@ + m@,
        PromptHubError::ParseError(m) => "Parse error in Promptfile: "@ + m@,
        PromptHubError::ValidationError(m) => "Validation error: "@ + m@,
        PromptHubError::ConflictError(a, b) => "Conflict detected between layers: "@ + a@
            + " conflicts with "@ + b@,
        PromptHubError::Io(m) => "IO error: "@ + m@,
        PromptHubError::Yaml(m) => "YAML error: "@ + m@,
        PromptHubError::Json(m) => "JSON error: "@ + m@,
        PromptHubError::Network(m) => "Network error: "@ + m@,
        PromptHubError::Other(m) => m@,
    }
}

impl PromptHubError {
    /// The message shown for this error.
    pub fn message(&self) -> (r: String)
        ensures
            r@ == error_text(*self),
    {
        match self {
            PromptHubError::LayerNotFound(m) => concat2("Layer not found: ", m.as_str()),
            PromptHubError::ParseError(m) => concat2("Parse error in Promptfile: ", m.as_str()),
            PromptHubError::ValidationError(m) => concat2("Validation error: ", m.as_str()),
            PromptHubError::ConflictError(a, b) => {
                let r = concat3("Conflict detected between layers: ", a.as_str(), " conflicts with ");
                concat2(r.as_str(), b.as_str())
            },
            PromptHubError::Io(m) => concat2("IO error: ", m.as_str()),
            PromptHubError::Yaml(m) => concat2("YAML error: ", m.as_str()),
            PromptHubError::Json(m) => concat2("JSON error: ", m.as_str()),
            PromptHubError::Network(m) => concat2("Network error: ", m.as_str()),
            PromptHubError::Other(m) => owned(m.as_str()),
        }
    }
}

} // verus!
