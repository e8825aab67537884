//! Ready-made searches.
use crate::score::{Score, ZERO_BITS};
use crate::search::config::{
    self, CommunityReranker, CommunitySearchConfig, DEFAULT_MMR_LAMBDA, DEFAULT_SEARCH_LIMIT,
    EdgeReranker, EdgeSearchConfig, EdgeSearchMethod, EpisodeReranker, EpisodeSearchConfig,
    NodeReranker, NodeSearchConfig, NodeSearchMethod, SearchConfig, SearchConfigView,
};
use vstd::prelude::*;

verus! {

/// The weight of relevance alone: the bits of the double-precision number 1.
pub const PURE_RELEVANCE: u64 = 0x3ff0_0000_0000_0000;

/// All scopes, ordered by reciprocal ranks.
pub fn combined_hybrid_search_rrf() -> (r: SearchConfig)
    ensures
        r@ == (SearchConfigView {
            edge: Some(
                config::scope(
                    EdgeSearchConfig::usual_methods(),
                    EdgeReranker::Rrf,
                    DEFAULT_MMR_LAMBDA,
                ),
            ),
            node: Some(
                config::scope(
                    NodeSearchConfig::usual_methods(),
                    NodeReranker::Rrf,
                    DEFAULT_MMR_LAMBDA,
                ),
            ),
            episode: Some(
                config::scope(
                    EpisodeSearchConfig::usual_methods(),
                    EpisodeReranker::Rrf,
                    DEFAULT_MMR_LAMBDA,
                ),
            ),
            community: Some(
                config::scope(
                    CommunitySearchConfig::usual_methods(),
                    CommunityReranker::Rrf,
                    DEFAULT_MMR_LAMBDA,
                ),
            ),
            limit: DEFAULT_SEARCH_LIMIT,
            reranker_min_score: (Score { bits: ZERO_BITS }),
        }),
{
    SearchConfig {
        edge_config: Some(
            EdgeSearchConfig::with(EdgeSearchConfig::hybrid(), EdgeReranker::Rrf),
        ),
        node_config: Some(
            NodeSearchConfig::with(NodeSearchConfig::hybrid(), NodeReranker::Rrf),
        ),
        episode_config: Some(
            EpisodeSearchConfig::with(EpisodeSearchConfig::hybrid(), EpisodeReranker::Rrf),
        ),
        community_config: Some(
            CommunitySearchConfig::with(CommunitySearchConfig::hybrid(), CommunityReranker::Rrf),
        ),
        limit: DEFAULT_SEARCH_LIMIT,
        reranker_min_score: Score { bits: ZERO_BITS },
    }
}

/// All scopes, ordered by relevance alone; episodes by reciprocal ranks.
pub fn combined_hybrid_search_mmr() -> (r: SearchConfig)
    ensures
        r@ == (SearchConfigView {
            edge: Some(
                config::scope(
                    EdgeSearchConfig::usual_methods(),
                    EdgeReranker::Mmr,
                    PURE_RELEVANCE,
                ),
            ),
            node: Some(
                config::scope(
                    NodeSearchConfig::usual_methods(),
                    NodeReranker::Mmr,
                    PURE_RELEVANCE,
                ),
            ),
            episode: Some(
                config::scope(
                    EpisodeSearchConfig::usual_methods(),
                    EpisodeReranker::Rrf,
                    DEFAULT_MMR_LAMBDA,
                ),
            ),
            community: Some(
                config::scope(
                    CommunitySearchConfig::usual_methods(),
                    CommunityReranker::Mmr,
                    PURE_RELEVANCE,
                ),
            ),
            limit: DEFAULT_SEARCH_LIMIT,
            reranker_min_score: (Score { bits: ZERO_BITS }),
        }),
{
    SearchConfig {
        edge_config: Some(
            EdgeSearchConfig::with(EdgeSearchConfig::hybrid(), EdgeReranker::Mmr).weighing(
                PURE_RELEVANCE,
            ),
        ),
        node_config: Some(
            NodeSearchConfig::with(NodeSearchConfig::hybrid(), NodeReranker::Mmr).weighing(
                PURE_RELEVANCE,
            ),
        ),
        episode_config: Some(
            EpisodeSearchConfig::with(EpisodeSearchConfig::hybrid(), EpisodeReranker::Rrf),
        ),
        community_config: Some(
            CommunitySearchConfig::with(CommunitySearchConfig::hybrid(), CommunityReranker::Mmr).weighing(
                PURE_RELEVANCE,
            ),
        ),
        limit: DEFAULT_SEARCH_LIMIT,
        reranker_min_score: Score { bits: ZERO_BITS },
    }
}

/// All scopes, facts and entities also by a walk of the graph, ordered by a model that scores passages.
pub fn combined_hybrid_search_cross_encoder() -> (r: SearchConfig)
    ensures
        r@ == (SearchConfigView {
            edge: Some(
                config::scope(
                    EdgeSearchConfig::usual_methods().push(EdgeSearchMethod::BreadthFirstSearch),
                    EdgeReranker::CrossEncoder,
                    DEFAULT_MMR_LAMBDA,
                ),
            ),
            node: Some(
                config::scope(
                    NodeSearchConfig::usual_methods().push(NodeSearchMethod::BreadthFirstSearch),
                    NodeReranker::CrossEncoder,
                    DEFAULT_MMR_LAMBDA,
                ),
            ),
            episode: Some(
                config::scope(
                    EpisodeSearchConfig::usual_methods(),
                    EpisodeReranker::CrossEncoder,
                    DEFAULT_MMR_LAMBDA,
                ),
            ),
            community: Some(
                config::scope(
                    CommunitySearchConfig::usual_methods(),
                    CommunityReranker::CrossEncoder,
                    DEFAULT_MMR_LAMBDA,
                ),
            ),
            limit: DEFAULT_SEARCH_LIMIT,
            reranker_min_score: (Score { bits: ZERO_BITS }),
        }),
{
    SearchConfig {
        edge_config: Some(
            EdgeSearchConfig::with(EdgeSearchConfig::hybrid_and_walk(), EdgeReranker::CrossEncoder),
        ),
        node_config: Some(
            NodeSearchConfig::with(NodeSearchConfig::hybrid_and_walk(), NodeReranker::CrossEncoder),
        ),
        episode_config: Some(
            EpisodeSearchConfig::with(EpisodeSearchConfig::hybrid(), EpisodeReranker::CrossEncoder),
        ),
        community_config: Some(
            CommunitySearchConfig::with(
                CommunitySearchConfig::hybrid(),
                CommunityReranker::CrossEncoder,
            ),
        ),
        limit: DEFAULT_SEARCH_LIMIT,
        reranker_min_score: Score { bits: ZERO_BITS },
    }
}

/// Facts, ordered by reciprocal ranks.
pub fn edge_hybrid_search_rrf() -> (r: SearchConfig)
    ensures
        r@ == (SearchConfigView {
            edge: Some(
                config::scope(
                    EdgeSearchConfig::usual_methods(),
                    EdgeReranker::Rrf,
                    DEFAULT_MMR_LAMBDA,
                ),
            ),
            node: None,
            episode: None,
            community: None,
            limit: DEFAULT_SEARCH_LIMIT,
            reranker_min_score: (Score { bits: ZERO_BITS }),
        }),
{
    SearchConfig {
        edge_config: Some(
            EdgeSearchConfig::with(EdgeSearchConfig::hybrid(), EdgeReranker::Rrf),
        ),
        node_config: None,
        episode_config: None,
        community_config: None,
        limit: DEFAULT_SEARCH_LIMIT,
        reranker_min_score: Score { bits: ZERO_BITS },
    }
}

/// Facts, ordered by relevance and diversity.
pub fn edge_hybrid_search_mmr() -> (r: SearchConfig)
    ensures
        r@ == (SearchConfigView {
            edge: Some(
                config::scope(
                    EdgeSearchConfig::usual_methods(),
                    EdgeReranker::Mmr,
                    DEFAULT_MMR_LAMBDA,
                ),
            ),
            node: None,
            episode: None,
            community: None,
            limit: DEFAULT_SEARCH_LIMIT,
            reranker_min_score: (Score { bits: ZERO_BITS }),
        }),
{
    SearchConfig {
        edge_config: Some(
            EdgeSearchConfig::with(EdgeSearchConfig::hybrid(), EdgeReranker::Mmr),
        ),
        node_config: None,
        episode_config: None,
        community_config: None,
        limit: DEFAULT_SEARCH_LIMIT,
        reranker_min_score: Score { bits: ZERO_BITS },
    }
}

/// Facts, ordered by nearness to a node.
pub fn edge_hybrid_search_node_distance() -> (r: SearchConfig)
    ensures
        r@ == (SearchConfigView {
            edge: Some(
                config::scope(
                    EdgeSearchConfig::usual_methods(),
                    EdgeReranker::NodeDistance,
                    DEFAULT_MMR_LAMBDA,
                ),
            ),
            node: None,
            episode: None,
            community: None,
            limit: DEFAULT_SEARCH_LIMIT,
            reranker_min_score: (Score { bits: ZERO_BITS }),
        }),
{
    SearchConfig {
        edge_config: Some(
            EdgeSearchConfig::with(EdgeSearchConfig::hybrid(), EdgeReranker::NodeDistance),
        ),
        node_config: None,
        episode_config: None,
        community_config: None,
        limit: DEFAULT_SEARCH_LIMIT,
        reranker_min_score: Score { bits: ZERO_BITS },
    }
}

/// Facts, ordered by the number of episodes that mention them.
pub fn edge_hybrid_search_episode_mentions() -> (r: SearchConfig)
    ensures
        r@ == (SearchConfigView {
            edge: Some(
                config::scope(
                    EdgeSearchConfig::usual_methods(),
                    EdgeReranker::EpisodeMentions,
                    DEFAULT_MMR_LAMBDA,
                ),
            ),
            node: None,
            episode: None,
            community: None,
            limit: DEFAULT_SEARCH_LIMIT,
            reranker_min_score: (Score { bits: ZERO_BITS }),
        }),
{
    SearchConfig {
        edge_config: Some(
            EdgeSearchConfig::with(EdgeSearchConfig::hybrid(), EdgeReranker::EpisodeMentions),
        ),
        node_config: None,
        episode_config: None,
        community_config: None,
        limit: DEFAULT_SEARCH_LIMIT,
        reranker_min_score: Score { bits: ZERO_BITS },
    }
}

/// Facts, also by a walk of the graph, ordered by a model that scores passages.
pub fn edge_hybrid_search_cross_encoder() -> (r: SearchConfig)
    ensures
        r@ == (SearchConfigView {
            edge: Some(
                config::scope(
                    EdgeSearchConfig::usual_methods().push(EdgeSearchMethod::BreadthFirstSearch),
                    EdgeReranker::CrossEncoder,
                    DEFAULT_MMR_LAMBDA,
                ),
            ),
            node: None,
            episode: None,
            community: None,
            limit: 10,
            reranker_min_score: (Score { bits: ZERO_BITS }),
        }),
{
    SearchConfig {
        edge_config: Some(
            EdgeSearchConfig::with(EdgeSearchConfig::hybrid_and_walk(), EdgeReranker::CrossEncoder),
        ),
        node_config: None,
        episode_config: None,
        community_config: None,
        limit: 10,
        reranker_min_score: Score { bits: ZERO_BITS },
    }
}

/// Entities, ordered by reciprocal ranks.
pub fn node_hybrid_search_rrf() -> (r: SearchConfig)
    ensures
        r@ == (SearchConfigView {
            edge: None,
            node: Some(
                config::scope(
                    NodeSearchConfig::usual_methods(),
                    NodeReranker::Rrf,
                    DEFAULT_MMR_LAMBDA,
                ),
            ),
            episode: None,
            community: None,
            limit: DEFAULT_SEARCH_LIMIT,
            reranker_min_score: (Score { bits: ZERO_BITS }),
        }),
{
    SearchConfig {
        edge_config: None,
        node_config: Some(
            NodeSearchConfig::with(NodeSearchConfig::hybrid(), NodeReranker::Rrf),
        ),
        episode_config: None,
        community_config: None,
        limit: DEFAULT_SEARCH_LIMIT,
        reranker_min_score: Score { bits: ZERO_BITS },
    }
}

/// Entities, ordered by relevance and diversity.
pub fn node_hybrid_search_mmr() -> (r: SearchConfig)
    ensures
        r@ == (SearchConfigView {
            edge: None,
            node: Some(
                config::scope(
                    NodeSearchConfig::usual_methods(),
                    NodeReranker::Mmr,
                    DEFAULT_MMR_LAMBDA,
                ),
            ),
            episode: None,
            community: None,
            limit: DEFAULT_SEARCH_LIMIT,
            reranker_min_score: (Score { bits: ZERO_BITS }),
        }),
{
    SearchConfig {
        edge_config: None,
        node_config: Some(
            NodeSearchConfig::with(NodeSearchConfig::hybrid(), NodeReranker::Mmr),
        ),
        episode_config: None,
        community_config: None,
        limit: DEFAULT_SEARCH_LIMIT,
        reranker_min_score: Score { bits: ZERO_BITS },
    }
}

/// Entities, ordered by nearness to a node.
pub fn node_hybrid_search_node_distance() -> (r: SearchConfig)
    ensures
        r@ == (SearchConfigView {
            edge: None,
            node: Some(
                config::scope(
                    NodeSearchConfig::usual_methods(),
                    NodeReranker::NodeDistance,
                    DEFAULT_MMR_LAMBDA,
                ),
            ),
            episode: None,
            community: None,
            limit: DEFAULT_SEARCH_LIMIT,
            reranker_min_score: (Score { bits: ZERO_BITS }),
        }),
{
    SearchConfig {
        edge_config: None,
        node_config: Some(
            NodeSearchConfig::with(NodeSearchConfig::hybrid(), NodeReranker::NodeDistance),
        ),
        episode_config: None,
        community_config: None,
        limit: DEFAULT_SEARCH_LIMIT,
        reranker_min_score: Score { bits: ZERO_BITS },
    }
}

/// Entities, ordered by the number of episodes that mention them.
pub fn node_hybrid_search_episode_mentions() -> (r: SearchConfig)
    ensures
        r@ == (SearchConfigView {
            edge: None,
            node: Some(
                config::scope(
                    NodeSearchConfig::usual_methods(),
                    NodeReranker::EpisodeMentions,
                    DEFAULT_MMR_LAMBDA,
                ),
            ),
            episode: None,
            community: None,
            limit: DEFAULT_SEARCH_LIMIT,
            reranker_min_score: (Score { bits: ZERO_BITS }),
        }),
{
    SearchConfig {
        edge_config: None,
        node_config: Some(
            NodeSearchConfig::with(NodeSearchConfig::hybrid(), NodeReranker::EpisodeMentions),
        ),
        episode_config: None,
        community_config: None,
        limit: DEFAULT_SEARCH_LIMIT,
        reranker_min_score: Score { bits: ZERO_BITS },
    }
}

/// Entities, also by a walk of the graph, ordered by a model that scores passages.
pub fn node_hybrid_search_cross_encoder() -> (r: SearchConfig)
    ensures
        r@ == (SearchConfigView {
            edge: None,
            node: Some(
                config::scope(
                    NodeSearchConfig::usual_methods().push(NodeSearchMethod::BreadthFirstSearch),
                    NodeReranker::CrossEncoder,
                    DEFAULT_MMR_LAMBDA,
                ),
            ),
            episode: None,
            community: None,
            limit: 10,
            reranker_min_score: (Score { bits: ZERO_BITS }),
        }),
{
    SearchConfig {
        edge_config: None,
        node_config: Some(
            NodeSearchConfig::with(NodeSearchConfig::hybrid_and_walk(), NodeReranker::CrossEncoder),
        ),
        episode_config: None,
        community_config: None,
        limit: 10,
        reranker_min_score: Score { bits: ZERO_BITS },
    }
}

/// Communities, ordered by reciprocal ranks.
pub fn community_hybrid_search_rrf() -> (r: SearchConfig)
    ensures
        r@ == (SearchConfigView {
            edge: None,
            node: None,
            episode: None,
            community: Some(
                config::scope(
                    CommunitySearchConfig::usual_methods(),
                    CommunityReranker::Rrf,
                    DEFAULT_MMR_LAMBDA,
                ),
            ),
            limit: DEFAULT_SEARCH_LIMIT,
            reranker_min_score: (Score { bits: ZERO_BITS }),
        }),
{
    SearchConfig {
        edge_config: None,
        node_config: None,
        episode_config: None,
        community_config: Some(
            CommunitySearchConfig::with(CommunitySearchConfig::hybrid(), CommunityReranker::Rrf),
        ),
        limit: DEFAULT_SEARCH_LIMIT,
        reranker_min_score: Score { bits: ZERO_BITS },
    }
}

/// Communities, ordered by relevance and diversity.
pub fn community_hybrid_search_mmr() -> (r: SearchConfig)
    ensures
        r@ == (SearchConfigView {
            edge: None,
            node: None,
            episode: None,
            community: Some(
                config::scope(
                    CommunitySearchConfig::usual_methods(),
                    CommunityReranker::Mmr,
                    DEFAULT_MMR_LAMBDA,
                ),
            ),
            limit: DEFAULT_SEARCH_LIMIT,
            reranker_min_score: (Score { bits: ZERO_BITS }),
        }),
{
    SearchConfig {
        edge_config: None,
        node_config: None,
        episode_config: None,
        community_config: Some(
            CommunitySearchConfig::with(CommunitySearchConfig::hybrid(), CommunityReranker::Mmr),
        ),
        limit: DEFAULT_SEARCH_LIMIT,
        reranker_min_score: Score { bits: ZERO_BITS },
    }
}

/// Three communities, ordered by a model that scores passages.
pub fn community_hybrid_search_cross_encoder() -> (r: SearchConfig)
    ensures
        r@ == (SearchConfigView {
            edge: None,
            node: None,
            episode: None,
            community: Some(
                config::scope(
                    CommunitySearchConfig::usual_methods(),
                    CommunityReranker::CrossEncoder,
                    DEFAULT_MMR_LAMBDA,
                ),
            ),
            limit: 3,
            reranker_min_score: (Score { bits: ZERO_BITS }),
        }),
{
    SearchConfig {
        edge_config: None,
        node_config: None,
        episode_config: None,
        community_config: Some(
            CommunitySearchConfig::with(
                CommunitySearchConfig::hybrid(),
                CommunityReranker::CrossEncoder,
            ),
        ),
        limit: 3,
        reranker_min_score: Score { bits: ZERO_BITS },
    }
}

} // verus!
