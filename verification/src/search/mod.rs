//! Search over facts, entities, episodes and communities.
pub mod community_search;
pub mod config;
pub mod edge_search;
pub mod episode_search;
pub mod filters;
pub mod found;
pub mod laws;
pub mod node_search;
pub mod query;
pub mod recipes;
pub mod rerank;
pub mod results;
pub mod rrf;
pub mod step;
pub mod step_laws;

pub use config::{
    CommunityReranker, CommunitySearchConfig, CommunitySearchMethod, EdgeReranker, EdgeSearchConfig,
    EdgeSearchMethod, EpisodeReranker, EpisodeSearchConfig, EpisodeSearchMethod, NodeReranker,
    NodeSearchConfig, NodeSearchMethod, SearchConfig, DEFAULT_MIN_SCORE, DEFAULT_MMR_LAMBDA,
    DEFAULT_SEARCH_LIMIT, MAX_SEARCH_DEPTH,
};
pub use filters::{ComparisonOperator, DateFilter, PropertyFilter, SearchFilters};
pub use recipes::{
    combined_hybrid_search_cross_encoder, combined_hybrid_search_mmr, combined_hybrid_search_rrf,
    edge_hybrid_search_cross_encoder, edge_hybrid_search_episode_mentions, edge_hybrid_search_mmr,
    edge_hybrid_search_node_distance, edge_hybrid_search_rrf, node_hybrid_search_cross_encoder,
    node_hybrid_search_episode_mentions, node_hybrid_search_mmr, node_hybrid_search_node_distance,
    node_hybrid_search_rrf,
};
pub use rerank::{episode_mentions_rerank, node_distance_rerank};
pub use results::SearchResults;
pub use rrf::rrf;
