//! Core of a bi-temporal knowledge-graph memory.
//!
//! Episodes of text become entities and dated facts between them. The crate
//! holds the decisions of that pipeline: name deduplication, fact resolution and
//! invalidation, community detection, bulk loading, prompt rendering and hybrid
//! search. Storage, model calls and embeddings stay outside; every function here
//! goes from plain values to plain values.
pub mod bignum;
pub mod chronicle;
pub mod collections;
pub mod document_laws;
pub mod document_rag;
pub mod double;
pub mod driver;
pub mod embedder;
pub mod errors;
pub mod helpers;
pub mod ids;
pub mod json;
pub mod llm;
pub mod pipeline;
pub mod prompts;
pub mod score;
pub mod search;
pub mod selection;
pub mod sorting;
pub mod text;
pub mod text_laws;
pub mod time;
pub mod types;
