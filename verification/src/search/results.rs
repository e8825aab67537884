//! What a search over several scopes found.
use crate::score::Score;
use crate::types::community::CommunityNode;
use crate::types::edge::EntityEdge;
use crate::types::episode::EpisodicNode;
use crate::types::node::EntityNode;
use vstd::prelude::*;

verus! {

/// The results of each scope with their scores.
#[derive(Debug)]
pub struct SearchResults {
    pub edges: Vec<EntityEdge>,
    pub edge_reranker_scores: Vec<Score>,
    pub nodes: Vec<EntityNode>,
    pub node_reranker_scores: Vec<Score>,
    pub episodes: Vec<EpisodicNode>,
    pub episode_reranker_scores: Vec<Score>,
    pub communities: Vec<CommunityNode>,
    pub community_reranker_scores: Vec<Score>,
}

impl SearchResults {
    /// Holds where no scope found anything.
    pub open spec fn is_empty(&self) -> bool {
        &&& self.edges@.len() == 0
        &&& self.edge_reranker_scores@.len() == 0
        &&& self.nodes@.len() == 0
        &&& self.node_reranker_scores@.len() == 0
        &&& self.episodes@.len() == 0
        &&& self.episode_reranker_scores@.len() == 0
        &&& self.communities@.len() == 0
        &&& self.community_reranker_scores@.len() == 0
    }

    /// Facts and entities without scores.
    pub fn of(edges: Vec<EntityEdge>, nodes: Vec<EntityNode>) -> (r: SearchResults)
        ensures
            r.edges == edges,
            r.nodes == nodes,
            r.edge_reranker_scores@.len() == 0,
            r.node_reranker_scores@.len() == 0,
            r.episodes@.len() == 0,
            r.episode_reranker_scores@.len() == 0,
            r.communities@.len() == 0,
            r.community_reranker_scores@.len() == 0,
    {
        let mut results = SearchResults::default();
        results.edges = edges;
        results.nodes = nodes;
        results
    }
}

impl Default for SearchResults {
    /// Nothing.
    fn default() -> (r: SearchResults)
        ensures
            r.is_empty(),
    {
        SearchResults {
            edges: Vec::new(),
            edge_reranker_scores: Vec::new(),
            nodes: Vec::new(),
            node_reranker_scores: Vec::new(),
            episodes: Vec::new(),
            episode_reranker_scores: Vec::new(),
            communities: Vec::new(),
            community_reranker_scores: Vec::new(),
        }
    }
}

} // verus!
