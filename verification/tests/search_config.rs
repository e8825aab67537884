//! Configurations of a search.
use chronicle_core::search::config::{
    CommunityReranker, CommunitySearchMethod, EdgeReranker, EdgeSearchConfig, EdgeSearchMethod,
    EpisodeReranker, EpisodeSearchConfig, EpisodeSearchMethod, NodeReranker, NodeSearchConfig,
    NodeSearchMethod, DEFAULT_MIN_SCORE, DEFAULT_MMR_LAMBDA, DEFAULT_SEARCH_LIMIT,
    MAX_SEARCH_DEPTH,
};
use chronicle_core::search::recipes::{
    combined_hybrid_search_cross_encoder, combined_hybrid_search_mmr, combined_hybrid_search_rrf,
    community_hybrid_search_cross_encoder, community_hybrid_search_mmr,
    community_hybrid_search_rrf, edge_hybrid_search_cross_encoder,
    edge_hybrid_search_episode_mentions, edge_hybrid_search_mmr, edge_hybrid_search_node_distance,
    edge_hybrid_search_rrf, node_hybrid_search_cross_encoder, node_hybrid_search_episode_mentions,
    node_hybrid_search_node_distance,
};

#[test]
fn default_edge_search_config_has_both_methods() {
    let cfg = EdgeSearchConfig::default();
    assert!(cfg.search_methods.contains(&EdgeSearchMethod::Bm25));
    assert!(
        cfg.search_methods
            .contains(&EdgeSearchMethod::CosineSimilarity)
    );
    assert_eq!(cfg.reranker, EdgeReranker::Rrf);
    assert!((f32::from_bits(cfg.sim_min_score) - f32::from_bits(DEFAULT_MIN_SCORE)).abs() < f32::EPSILON);
    assert!((f64::from_bits(cfg.mmr_lambda) - f64::from_bits(DEFAULT_MMR_LAMBDA)).abs() < f64::EPSILON);
    assert_eq!(cfg.bfs_max_depth, MAX_SEARCH_DEPTH);
}

#[test]
fn default_node_search_config_has_both_methods() {
    let cfg = NodeSearchConfig::default();
    assert!(cfg.search_methods.contains(&NodeSearchMethod::Bm25));
    assert!(
        cfg.search_methods
            .contains(&NodeSearchMethod::CosineSimilarity)
    );
    assert_eq!(cfg.reranker, NodeReranker::Rrf);
}

#[test]
fn default_episode_search_config_has_bm25_only() {
    let cfg = EpisodeSearchConfig::default();
    assert_eq!(cfg.search_methods.len(), 1);
    assert!(cfg.search_methods.contains(&EpisodeSearchMethod::Bm25));
    assert_eq!(cfg.reranker, EpisodeReranker::Rrf);
}

#[test]
fn edge_hybrid_search_rrf_recipe_is_sane() {
    let cfg = edge_hybrid_search_rrf();
    assert!(cfg.edge_config.is_some());
    assert!(cfg.node_config.is_none());
    assert!(cfg.episode_config.is_none());
    assert_eq!(cfg.limit, DEFAULT_SEARCH_LIMIT);
    assert_eq!(f64::from_bits(cfg.reranker_min_score.bits), 0.0);
}

#[test]
fn constants_match_upstream() {
    assert_eq!(DEFAULT_SEARCH_LIMIT, 10);
    assert!((f32::from_bits(DEFAULT_MIN_SCORE) - 0.6_f32).abs() < f32::EPSILON);
    assert!((f64::from_bits(DEFAULT_MMR_LAMBDA) - 0.5_f64).abs() < f64::EPSILON);
    assert_eq!(MAX_SEARCH_DEPTH, 3);
}

#[test]
fn search_config_fields_accessible() {
    let cfg = edge_hybrid_search_rrf();
    let _ = cfg.node_config;
    let _ = cfg.episode_config;
}

#[test]
fn combined_cross_encoder_bfs_in_edge_and_node_methods() {
    let cfg = combined_hybrid_search_cross_encoder();

    let ec = cfg.edge_config.expect("edge_config must be Some");
    assert!(
        ec.search_methods
            .contains(&EdgeSearchMethod::BreadthFirstSearch),
        "edge_config must contain BFS"
    );
    assert!(ec.search_methods.contains(&EdgeSearchMethod::Bm25));
    assert!(
        ec.search_methods
            .contains(&EdgeSearchMethod::CosineSimilarity)
    );
    assert_eq!(ec.reranker, EdgeReranker::CrossEncoder);

    let nc = cfg.node_config.expect("node_config must be Some");
    assert!(
        nc.search_methods
            .contains(&NodeSearchMethod::BreadthFirstSearch),
        "node_config must contain BFS"
    );
    assert_eq!(nc.reranker, NodeReranker::CrossEncoder);

    let epc = cfg.episode_config.expect("episode_config must be Some");
    assert_eq!(epc.search_methods, vec![EpisodeSearchMethod::Bm25]);
    assert_eq!(epc.reranker, EpisodeReranker::CrossEncoder);
}

#[test]
fn edge_cross_encoder_has_explicit_limit_10() {
    let cfg = edge_hybrid_search_cross_encoder();
    assert_eq!(cfg.limit, 10);
    let ec = cfg.edge_config.expect("edge_config must be Some");
    assert!(
        ec.search_methods
            .contains(&EdgeSearchMethod::BreadthFirstSearch)
    );
    assert_eq!(ec.reranker, EdgeReranker::CrossEncoder);
}

#[test]
fn combined_mmr_lambda_is_1_0_on_edge_and_node() {
    let cfg = combined_hybrid_search_mmr();

    let ec = cfg.edge_config.expect("edge_config must be Some");
    assert_eq!(ec.reranker, EdgeReranker::Mmr);
    assert!(
        (f64::from_bits(ec.mmr_lambda) - 1.0_f64).abs() < f64::EPSILON,
        "edge mmr_lambda must be 1.0, got {}",
        ec.mmr_lambda
    );

    let nc = cfg.node_config.expect("node_config must be Some");
    assert_eq!(nc.reranker, NodeReranker::Mmr);
    assert!(
        (f64::from_bits(nc.mmr_lambda) - 1.0_f64).abs() < f64::EPSILON,
        "node mmr_lambda must be 1.0, got {}",
        nc.mmr_lambda
    );

    let epc = cfg.episode_config.expect("episode_config must be Some");
    assert_eq!(epc.reranker, EpisodeReranker::Rrf);

    let cc = cfg.community_config.expect("community_config must be Some");
    assert_eq!(cc.reranker, CommunityReranker::Mmr);
    assert!(
        (f64::from_bits(cc.mmr_lambda) - 1.0_f64).abs() < f64::EPSILON,
        "community mmr_lambda must be 1.0 in COMBINED_MMR, got {}",
        cc.mmr_lambda
    );
}

#[test]
fn node_distance_recipe_has_node_distance_reranker() {
    let edge_cfg = edge_hybrid_search_node_distance();
    let ec = edge_cfg.edge_config.expect("edge_config must be Some");
    assert_eq!(ec.reranker, EdgeReranker::NodeDistance);
    assert!(ec.search_methods.contains(&EdgeSearchMethod::Bm25));
    assert!(
        ec.search_methods
            .contains(&EdgeSearchMethod::CosineSimilarity)
    );

    let node_cfg = node_hybrid_search_node_distance();
    let nc = node_cfg.node_config.expect("node_config must be Some");
    assert_eq!(nc.reranker, NodeReranker::NodeDistance);
}

#[test]
fn edge_hybrid_search_rrf_backward_compat() {
    let cfg = edge_hybrid_search_rrf();
    let ec = cfg.edge_config.expect("edge_config must be Some");
    assert_eq!(ec.reranker, EdgeReranker::Rrf);
    assert!(
        !ec.search_methods
            .contains(&EdgeSearchMethod::BreadthFirstSearch)
    );
    assert_eq!(cfg.limit, DEFAULT_SEARCH_LIMIT);
    assert!(cfg.node_config.is_none());
    assert!(cfg.episode_config.is_none());
}

#[test]
fn node_cross_encoder_has_explicit_limit_10() {
    let cfg = node_hybrid_search_cross_encoder();
    assert_eq!(cfg.limit, 10);
    let nc = cfg.node_config.expect("node_config must be Some");
    assert!(
        nc.search_methods
            .contains(&NodeSearchMethod::BreadthFirstSearch)
    );
    assert_eq!(nc.reranker, NodeReranker::CrossEncoder);
}

#[test]
fn combined_rrf_all_scopes_set() {
    let cfg = combined_hybrid_search_rrf();
    assert!(cfg.edge_config.is_some());
    assert!(cfg.node_config.is_some());
    assert!(cfg.episode_config.is_some());
    let cc = cfg.community_config.expect("community_config must be Some");
    assert_eq!(cc.reranker, CommunityReranker::Rrf);
    assert!(cc.search_methods.contains(&CommunitySearchMethod::Bm25));
    assert!(
        cc.search_methods
            .contains(&CommunitySearchMethod::CosineSimilarity)
    );
}

#[test]
fn combined_cross_encoder_community_has_no_bfs() {
    let cfg = combined_hybrid_search_cross_encoder();
    let cc = cfg.community_config.expect("community_config must be Some");
    assert_eq!(cc.reranker, CommunityReranker::CrossEncoder);
    assert_eq!(cc.search_methods.len(), 2);
    assert!(cc.search_methods.contains(&CommunitySearchMethod::Bm25));
    assert!(
        cc.search_methods
            .contains(&CommunitySearchMethod::CosineSimilarity)
    );
}

#[test]
fn community_rrf_recipe_shape() {
    let cfg = community_hybrid_search_rrf();
    assert!(cfg.edge_config.is_none());
    assert!(cfg.node_config.is_none());
    assert!(cfg.episode_config.is_none());
    let cc = cfg.community_config.expect("community_config must be Some");
    assert_eq!(cc.reranker, CommunityReranker::Rrf);
    assert_eq!(cfg.limit, DEFAULT_SEARCH_LIMIT);
}

#[test]
fn community_mmr_recipe_uses_default_lambda() {
    let cfg = community_hybrid_search_mmr();
    let cc = cfg.community_config.expect("community_config must be Some");
    assert_eq!(cc.reranker, CommunityReranker::Mmr);
    assert!(
        (f64::from_bits(cc.mmr_lambda) - f64::from_bits(DEFAULT_MMR_LAMBDA)).abs() < f64::EPSILON,
        "COMMUNITY_MMR uses default lambda 0.5"
    );
}

#[test]
fn community_cross_encoder_recipe_has_explicit_limit_3() {
    let cfg = community_hybrid_search_cross_encoder();
    assert_eq!(cfg.limit, 3, "COMMUNITY_CROSS_ENCODER sets limit=3");
    let cc = cfg.community_config.expect("community_config must be Some");
    assert_eq!(cc.reranker, CommunityReranker::CrossEncoder);
}

#[test]
fn edge_episode_mentions_reranker() {
    let cfg = edge_hybrid_search_episode_mentions();
    let ec = cfg.edge_config.expect("edge_config");
    assert_eq!(ec.reranker, EdgeReranker::EpisodeMentions);
}

#[test]
fn node_episode_mentions_reranker() {
    let cfg = node_hybrid_search_episode_mentions();
    let nc = cfg.node_config.expect("node_config");
    assert_eq!(nc.reranker, NodeReranker::EpisodeMentions);
}

#[test]
fn default_mmr_lambda_is_0_5_for_non_mmr_combined_recipe() {
    let cfg = edge_hybrid_search_mmr();
    let ec = cfg.edge_config.expect("edge_config");
    assert_eq!(ec.reranker, EdgeReranker::Mmr);
    assert!(
        (f64::from_bits(ec.mmr_lambda) - f64::from_bits(DEFAULT_MMR_LAMBDA)).abs() < f64::EPSILON,
        "default mmr_lambda should be 0.5"
    );
}
