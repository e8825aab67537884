//! What a search over several scopes needs before it starts.
use crate::score::{Score, ZERO_BITS};
use crate::search::community_search::{self, community_search_needs_embedding};
use crate::search::config::{
    self, DEFAULT_MMR_LAMBDA, EdgeReranker, EdgeSearchConfig, SearchConfig, SearchConfigView,
};
use crate::search::edge_search::{self, edge_search_needs_embedding};
use crate::search::node_search::{self, node_search_needs_embedding};
use crate::search::recipes::{edge_hybrid_search_node_distance, edge_hybrid_search_rrf};
use crate::search::results::SearchResults;
use crate::search::step::Hits;
use crate::text::{self, clone_strings, is_blank, replace_char};
use crate::types::community::CommunityNode;
use crate::types::edge::EntityEdge;
use crate::types::episode::EpisodicNode;
use crate::types::node::EntityNode;
use vstd::prelude::*;

verus! {

/// Whether any scope needs the embedding of the query. Episodes never do.
pub open spec fn needs_embedding(config: SearchConfigView) -> bool {
    ||| config.edge matches Some(c) && edge_search::edges_need_embedding(c)
    ||| config.node matches Some(c) && node_search::nodes_need_embedding(c)
    ||| config.community matches Some(c) && community_search::communities_need_embedding(c)
}

/// Tells whether any scope needs the embedding of the query.
pub fn needs_query_embedding(config: &SearchConfig) -> (r: bool)
    ensures
        r == needs_embedding(config@),
{
    let edge = match &config.edge_config {
        Some(c) => edge_search_needs_embedding(c),
        None => false,
    };
    let node = match &config.node_config {
        Some(c) => node_search_needs_embedding(c),
        None => false,
    };
    let community = match &config.community_config {
        Some(c) => community_search_needs_embedding(c),
        None => false,
    };
    edge || node || community
}

/// The text of a query that is embedded: on one line. None where the query is blank, for which
/// nothing is searched.
pub fn query_text(query: &str) -> (r: Option<String>)
    ensures
        r is None <==> text::trim(query@).len() == 0,
        r is Some ==> r->0@ == text::replaced(query@, '\n', " "@),
{
    if is_blank(query) {
        None
    } else {
        Some(replace_char(query, '\n', " "))
    }
}

/// The groups that a search is limited to: none where a single nameless one is given.
pub open spec fn group_filter(group_ids: Seq<Seq<char>>) -> Seq<Seq<char>> {
    if group_ids.len() == 1 && group_ids[0].len() == 0 {
        Seq::empty()
    } else {
        group_ids
    }
}

/// The groups that a search is limited to.
pub fn normalize_group_ids(group_ids: &Vec<String>) -> (r: Vec<String>)
    ensures
        text::views(r@) == group_filter(text::views(group_ids@)),
{
    assert(text::views(group_ids@).len() == group_ids@.len());
    if group_ids.len() == 1 {
        assert(text::views(group_ids@)[0] == group_ids@[0]@);
        if group_ids[0].as_str().is_empty() {
            let none: Vec<String> = Vec::new();
            assert(text::views(none@) =~= Seq::<Seq<char>>::empty());
            return none;
        }
    }
    clone_strings(group_ids)
}

/// The search for facts around a node, or for facts anywhere: ordered by nearness to the node, or
/// by reciprocal ranks.
pub fn recipe_for_center(has_center: bool, num_results: usize) -> (r: SearchConfig)
    ensures
        r@.edge is Some,
        r@ == (SearchConfigView {
            edge: Some(
                config::scope(
                    EdgeSearchConfig::usual_methods(),
                    if has_center {
                        EdgeReranker::NodeDistance
                    } else {
                        EdgeReranker::Rrf
                    },
                    DEFAULT_MMR_LAMBDA,
                ),
            ),
            node: None,
            episode: None,
            community: None,
            limit: num_results,
            reranker_min_score: (Score { bits: ZERO_BITS }),
        }),
{
    let mut config = if has_center {
        edge_hybrid_search_node_distance()
    } else {
        edge_hybrid_search_rrf()
    };
    config.limit = num_results;
    config
}

/// Puts the results of the scopes together.
pub fn gather_results(
    edges: Hits<EntityEdge>,
    nodes: Hits<EntityNode>,
    episodes: Hits<EpisodicNode>,
    communities: Hits<CommunityNode>,
) -> (r: SearchResults)
    ensures
        r == (SearchResults {
            edges: edges.items,
            edge_reranker_scores: edges.scores,
            nodes: nodes.items,
            node_reranker_scores: nodes.scores,
            episodes: episodes.items,
            episode_reranker_scores: episodes.scores,
            communities: communities.items,
            community_reranker_scores: communities.scores,
        }),
{
    SearchResults {
        edges: edges.items,
        edge_reranker_scores: edges.scores,
        nodes: nodes.items,
        node_reranker_scores: nodes.scores,
        episodes: episodes.items,
        episode_reranker_scores: episodes.scores,
        communities: communities.items,
        community_reranker_scores: communities.scores,
    }
}

} // verus!
