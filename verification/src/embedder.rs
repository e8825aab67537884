//! Embeddings of text.
use vstd::prelude::*;

verus! {

/// The number of components of an embedding, unless configured otherwise.
pub const DEFAULT_EMBEDDING_DIM: usize = 1024;

/// A failure of the embedder.
#[derive(Debug)]
pub enum EmbedderError {
    Transport(String),
    Provider(String),
    RateLimit,
}

impl EmbedderError {
    /// Tells whether trying again may help: only after a rate limit.
    pub fn is_retryable(&self) -> (r: bool)
        ensures
            r == (self is RateLimit),
    {
        match self {
            EmbedderError::RateLimit => true,
            EmbedderError::Transport(_) => false,
            EmbedderError::Provider(_) => false,
        }
    }
}

/// The settings of an embedder.
#[derive(Debug, Clone, Copy)]
pub struct EmbedderConfig {
    pub embedding_dim: usize,
}

impl Default for EmbedderConfig {
    fn default() -> (r: Self)
        ensures
            r.embedding_dim == DEFAULT_EMBEDDING_DIM,
    {
        EmbedderConfig { embedding_dim: DEFAULT_EMBEDDING_DIM }
    }
}

} // verus!
