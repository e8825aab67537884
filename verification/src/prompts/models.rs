//! The answers of the language model.
use vstd::prelude::*;

verus! {

/// The episodes that an item is taken from where the answer names none: the first.
pub fn default_episode_indices() -> (r: Vec<i64>)
    ensures
        r@ == seq![0i64],
{
    let mut out: Vec<i64> = Vec::new();
    out.push(0);
    assert(out@ =~= seq![0i64]);
    out
}

/// An entity found in an episode.
#[derive(Debug)]
pub struct ExtractedEntity {
    pub name: String,
    pub entity_type_id: i64,
    pub episode_indices: Vec<i64>,
}

/// The entities found in an episode.
#[derive(Debug)]
pub struct ExtractedEntities {
    pub extracted_entities: Vec<ExtractedEntity>,
}

/// The summary of an entity.
#[derive(Debug)]
pub struct EntitySummary {
    pub summary: String,
}

/// The summary of one of several entities.
#[derive(Debug)]
pub struct SummarizedEntity {
    pub name: String,
    pub summary: String,
}

/// The summaries of several entities.
#[derive(Debug)]
pub struct SummarizedEntities {
    pub summaries: Vec<SummarizedEntity>,
}

/// A fact found in an episode.
#[derive(Debug)]
pub struct ExtractedEdge {
    pub source_entity_name: String,
    pub target_entity_name: String,
    pub relation_type: String,
    pub fact: String,
    pub valid_at: Option<String>,
    pub invalid_at: Option<String>,
    pub episode_indices: Vec<i64>,
}

/// The facts found in an episode.
#[derive(Debug)]
pub struct ExtractedEdges {
    pub edges: Vec<ExtractedEdge>,
}

/// When a fact became true and when it stopped being true.
#[derive(Debug)]
pub struct EdgeTimestamps {
    pub valid_at: Option<String>,
    pub invalid_at: Option<String>,
}

/// The dates of several facts.
#[derive(Debug)]
pub struct BatchEdgeTimestamps {
    pub timestamps: Vec<EdgeTimestamps>,
}

/// The known entity that a new one duplicates, or -1.
#[derive(Debug)]
pub struct NodeDuplicate {
    pub id: i64,
    pub name: String,
    pub duplicate_candidate_id: i64,
}

/// What each of the new entities duplicates.
#[derive(Debug)]
pub struct NodeResolutions {
    pub entity_resolutions: Vec<NodeDuplicate>,
}

/// The known facts that a new one duplicates and contradicts.
#[derive(Debug)]
pub struct EdgeDuplicate {
    pub duplicate_facts: Vec<i64>,
    pub contradicted_facts: Vec<i64>,
}

/// A summary.
#[derive(Debug)]
pub struct Summary {
    pub summary: String,
}

/// One sentence about a summary.
#[derive(Debug)]
pub struct SummaryDescription {
    pub description: String,
}

} // verus!
