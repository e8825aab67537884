//! The error of the library's operations.
use crate::driver::DriverError;
use crate::embedder::EmbedderError;
use crate::llm::LlmError;
use vstd::prelude::*;

verus! {

/// The error type of `serde_json`.
#[verifier::external_type_specification]
#[verifier::external_body]
pub struct ExSerdeJsonError(serde_json::Error);

/// Why an operation failed.
#[derive(Debug)]
pub enum ChronicleError {
    /// The graph backend failed.
    Driver(DriverError),
    /// The language model failed.
    Llm(LlmError),
    /// The embedder failed.
    Embedder(EmbedderError),
    /// There is no entity with this identifier.
    NodeNotFound { uuid: String },
    /// There is no episode with this identifier.
    EpisodeNotFound { uuid: String },
    /// The request cannot be carried out as it stands.
    InvalidInput(String),
    /// A value could not be written as JSON or read from it.
    Serde(serde_json::Error),
}

} // verus!
