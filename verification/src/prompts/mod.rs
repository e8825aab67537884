//! Prompts and the shapes of their answers.
pub mod dedupe_edges;
pub mod dedupe_nodes;
pub mod extract_edges;
pub mod helpers;
pub mod models;
pub mod snippets;
pub mod summarize_nodes;
pub mod summarize_sagas;
