//! The nodes and edges of the graph.
use vstd::prelude::*;

pub mod community;
pub mod edge;
pub mod episode;
pub mod node;
pub mod saga;

pub use community::{CommunityEdge, CommunityEdgeView, CommunityNode, CommunityNodeView};
pub use edge::{EntityEdge, EntityEdgeView, EpisodicEdge, EpisodicEdgeView};
pub use episode::{EpisodeType, EpisodicNode, EpisodicNodeView};
pub use node::{EntityNode, EntityNodeView};
pub use saga::{
    HasEpisodeEdge, HasEpisodeEdgeView, NextEpisodeEdge, NextEpisodeEdgeView, SagaNode, SagaNodeView,
};

verus! {

/// An embedding: the bit patterns of its single-precision components.
pub type Embedding = Vec<u32>;

/// The view of an optional embedding.
pub open spec fn embedding_view(e: Option<Embedding>) -> Option<Seq<u32>> {
    match e {
        Some(v) => Some(v@),
        None => None,
    }
}

/// Copies an optional embedding.
pub fn clone_embedding(e: &Option<Embedding>) -> (r: Option<Embedding>)
    ensures
        embedding_view(r) == embedding_view(*e),
{
    match e {
        Some(v) => {
            let w = v.clone();
            assert(w@ =~= v@);
            Some(w)
        },
        None => None,
    }
}

/// The views of a sequence of entities.
pub open spec fn node_views(nodes: Seq<EntityNode>) -> Seq<EntityNodeView> {
    nodes.map_values(|n: EntityNode| n@)
}

/// The views of a sequence of facts.
pub open spec fn edge_views(edges: Seq<EntityEdge>) -> Seq<EntityEdgeView> {
    edges.map_values(|e: EntityEdge| e@)
}

/// The views of a sequence of episodes.
pub open spec fn episode_views(episodes: Seq<EpisodicNode>) -> Seq<EpisodicNodeView> {
    episodes.map_values(|e: EpisodicNode| e@)
}

/// The views of a sequence of communities.
pub open spec fn community_views(nodes: Seq<CommunityNode>) -> Seq<CommunityNodeView> {
    nodes.map_values(|n: CommunityNode| n@)
}

/// Copies a list of entities.
pub fn clone_nodes(nodes: &Vec<EntityNode>) -> (r: Vec<EntityNode>)
    ensures
        node_views(r@) == node_views(nodes@),
{
    let mut out: Vec<EntityNode> = Vec::new();
    let mut i: usize = 0;
    while i < nodes.len()
        invariant
            i <= nodes@.len(),
            out@.len() == i,
            forall|j: int| 0 <= j < i ==> (#[trigger] out@[j])@ == nodes@[j]@,
        decreases nodes.len() - i,
    {
        out.push(nodes[i].clone());
        i += 1;
    }
    assert(node_views(out@) =~= node_views(nodes@));
    out
}

/// Copies a list of facts.
pub fn clone_edges(edges: &Vec<EntityEdge>) -> (r: Vec<EntityEdge>)
    ensures
        edge_views(r@) == edge_views(edges@),
{
    let mut out: Vec<EntityEdge> = Vec::new();
    let mut i: usize = 0;
    while i < edges.len()
        invariant
            i <= edges@.len(),
            out@.len() == i,
            forall|j: int| 0 <= j < i ==> (#[trigger] out@[j])@ == edges@[j]@,
        decreases edges.len() - i,
    {
        out.push(edges[i].clone());
        i += 1;
    }
    assert(edge_views(out@) =~= edge_views(edges@));
    out
}

} // verus!
