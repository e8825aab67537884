use chronicle_core::collections::StringMap;
use chronicle_core::errors::ChronicleError;
use chronicle_core::score::Score;
use chronicle_core::search::community_search::{
    begin_community_rerank, finish_communities_by_ranking, next_community_call,
};
use chronicle_core::search::config::{
    CommunityReranker, CommunitySearchConfig, EdgeReranker, EdgeSearchConfig, EdgeSearchMethod,
    EpisodeReranker, EpisodeSearchConfig, NodeReranker, NodeSearchConfig, SearchConfig,
};
use chronicle_core::search::edge_search::{
    begin_edge_rerank, finish_edges_by_distance, finish_edges_by_ranking, next_edge_call,
};
use chronicle_core::search::episode_search::{
    begin_episode_rerank, finish_episodes_by_ranking, next_episode_call,
};
use chronicle_core::search::node_search::{
    begin_node_rerank, finish_nodes_by_distance, finish_nodes_by_mentions, finish_nodes_by_ranking,
    next_node_call,
};
use chronicle_core::search::filters::only_edges;
use chronicle_core::search::query::{
    gather_results, needs_query_embedding, normalize_group_ids, query_text, recipe_for_center,
};
use chronicle_core::search::recipes::{
    combined_hybrid_search_rrf, edge_hybrid_search_rrf,
};
use chronicle_core::search::rerank::{
    episode_mentions_rerank, mmr_candidates, node_distance_rerank,
};
use chronicle_core::search::results::SearchResults;
use chronicle_core::search::step::{finish_by_scores, Hits, RerankStep, SearchCall};
use chronicle_core::time::epoch;
use chronicle_core::types::{CommunityNode, EntityEdge, EntityNode, EpisodeType, EpisodicNode};

fn s(text: &str) -> String {
    text.to_string()
}

fn strings(texts: &[&str]) -> Vec<String> {
    texts.iter().map(|t| s(t)).collect()
}

fn score(x: f64) -> Score {
    Score { bits: x.to_bits() }
}

fn values(scores: &[Score]) -> Vec<f64> {
    scores.iter().map(|x| f64::from_bits(x.bits)).collect()
}

fn edge(uuid: &str, source: &str, fact: &str, episodes: usize) -> EntityEdge {
    let mut e = EntityEdge::new(s(source), s("target"), s("KNOWS"), s(fact), s("group"));
    e.uuid = s(uuid);
    e.episodes = (0..episodes).map(|i| format!("episode-{i}")).collect();
    e
}

fn node(uuid: &str, name: &str) -> EntityNode {
    let mut n = EntityNode::new(s(name), s("group"), epoch());
    n.uuid = s(uuid);
    n
}

fn episode(uuid: &str, content: &str) -> EpisodicNode {
    let mut e = EpisodicNode::new(
        s("name"),
        s("group"),
        EpisodeType::Text,
        s(""),
        s(content),
        epoch(),
        epoch(),
    );
    e.uuid = s(uuid);
    e
}

fn community(uuid: &str, name: &str) -> CommunityNode {
    let mut c = CommunityNode::new(s(name), s("group"), epoch());
    c.uuid = s(uuid);
    c
}

fn edge_uuids(hits: &Hits<EntityEdge>) -> Vec<String> {
    hits.items.iter().map(|e| e.uuid.clone()).collect()
}

fn node_uuids(hits: &Hits<EntityNode>) -> Vec<String> {
    hits.items.iter().map(|n| n.uuid.clone()).collect()
}

fn call_kind(call: &Option<SearchCall>) -> &'static str {
    match call {
        Some(SearchCall::Fulltext { .. }) => "words",
        Some(SearchCall::Similarity { .. }) => "similarity",
        Some(SearchCall::Walk { .. }) => "walk",
        None => "none",
    }
}

#[test]
fn methods_run_in_turn_with_twice_the_limit() {
    let config = EdgeSearchConfig::default();
    let mut lists: Vec<Vec<EntityEdge>> = Vec::new();
    match next_edge_call(&config, &None, &lists, 7) {
        Some(SearchCall::Fulltext { limit }) => assert_eq!(limit, 14),
        other => panic!("{other:?}"),
    }
    lists.push(vec![edge("a", "n1", "fact", 0)]);
    match next_edge_call(&config, &None, &lists, 7) {
        Some(SearchCall::Similarity { limit, min_score }) => {
            assert_eq!(limit, 14);
            assert_eq!(f32::from_bits(min_score), 0.6);
        }
        other => panic!("{other:?}"),
    }
    lists.push(Vec::new());
    assert_eq!(call_kind(&next_edge_call(&config, &None, &lists, 7)), "none");
}

#[test]
fn a_walk_without_origins_is_run_again_from_the_sources_that_were_found() {
    let config = EdgeSearchConfig::with(
        vec![EdgeSearchMethod::Bm25, EdgeSearchMethod::BreadthFirstSearch],
        EdgeReranker::Rrf,
    );
    let mut lists = vec![vec![edge("a", "n1", "x", 0), edge("b", "n2", "y", 0)]];
    match next_edge_call(&config, &None, &lists, 3) {
        Some(SearchCall::Walk { origins, max_depth, limit }) => {
            assert!(origins.is_empty());
            assert_eq!(max_depth, 3);
            assert_eq!(limit, 6);
        }
        other => panic!("{other:?}"),
    }
    lists.push(vec![edge("c", "n3", "z", 0)]);
    match next_edge_call(&config, &None, &lists, 3) {
        Some(SearchCall::Walk { origins, .. }) => {
            assert_eq!(origins, strings(&["n1", "n2", "n3"]));
        }
        other => panic!("{other:?}"),
    }
    lists.push(Vec::new());
    assert_eq!(call_kind(&next_edge_call(&config, &None, &lists, 3)), "none");
}

#[test]
fn a_walk_with_origins_is_run_once() {
    let config = EdgeSearchConfig::with(vec![EdgeSearchMethod::BreadthFirstSearch], EdgeReranker::Rrf);
    let origins = Some(strings(&["o1"]));
    match next_edge_call(&config, &origins, &Vec::new(), 3) {
        Some(SearchCall::Walk { origins, .. }) => assert_eq!(origins, strings(&["o1"])),
        other => panic!("{other:?}"),
    }
    let lists = vec![vec![edge("a", "n1", "x", 0)]];
    assert_eq!(call_kind(&next_edge_call(&config, &origins, &lists, 3)), "none");
}

#[test]
fn node_walks_start_at_the_nodes_that_were_found() {
    let config = NodeSearchConfig::with(NodeSearchConfig::hybrid_and_walk(), NodeReranker::Rrf);
    let lists = vec![vec![node("a", "A")], vec![node("b", "B")], Vec::new()];
    match next_node_call(&config, &None, &lists, 2) {
        Some(SearchCall::Walk { origins, .. }) => assert_eq!(origins, strings(&["a", "b"])),
        other => panic!("{other:?}"),
    }
}

#[test]
fn episodes_are_searched_by_words_and_communities_by_words_and_similarity() {
    let config = EpisodeSearchConfig::default();
    assert_eq!(call_kind(&next_episode_call(&config, &Vec::new(), 2)), "words");
    assert_eq!(call_kind(&next_episode_call(&config, &vec![Vec::new()], 2)), "none");
    let config = CommunitySearchConfig::default();
    assert_eq!(call_kind(&next_community_call(&config, &Vec::new(), 2)), "words");
    assert_eq!(call_kind(&next_community_call(&config, &vec![Vec::new()], 2)), "similarity");
    let lists = vec![Vec::new(), Vec::new()];
    assert_eq!(call_kind(&next_community_call(&config, &lists, 2)), "none");
}

#[test]
fn fused_facts_come_by_falling_scores_up_to_the_limit() {
    let lists = vec![
        vec![edge("a", "n", "fa", 0), edge("b", "n", "fb", 0)],
        vec![edge("b", "n", "fb", 0), edge("c", "n", "fc", 0)],
    ];
    match begin_edge_rerank(&lists, EdgeReranker::Rrf, false, None, 2, score(0.0)) {
        Ok(RerankStep::Done(hits)) => {
            assert_eq!(edge_uuids(&hits), strings(&["b", "a"]));
            assert_eq!(values(&hits.scores), vec![1.5, 1.0]);
        }
        other => panic!("{other:?}"),
    }
}

#[test]
fn a_later_copy_of_a_fact_stands_at_the_first_place() {
    let lists = vec![vec![edge("a", "n", "old", 0)], vec![edge("a", "n", "new", 0)]];
    match begin_edge_rerank(&lists, EdgeReranker::Rrf, false, None, 5, score(0.0)) {
        Ok(RerankStep::Done(hits)) => {
            assert_eq!(hits.items.len(), 1);
            assert_eq!(hits.items[0].fact, "new");
        }
        other => panic!("{other:?}"),
    }
}

#[test]
fn facts_by_mentions_come_by_falling_numbers_of_episodes() {
    let lists = vec![vec![
        edge("a", "n", "fa", 1),
        edge("b", "n", "fb", 3),
        edge("c", "n", "fc", 3),
        edge("d", "n", "fd", 2),
    ]];
    match begin_edge_rerank(&lists, EdgeReranker::EpisodeMentions, false, None, 3, score(0.0)) {
        Ok(RerankStep::Done(hits)) => {
            assert_eq!(edge_uuids(&hits), strings(&["b", "c", "d"]));
            assert_eq!(values(&hits.scores), vec![1.0, 0.5, 1.0 / 3.0]);
        }
        other => panic!("{other:?}"),
    }
}

#[test]
fn a_model_is_asked_for_the_different_facts_among_the_first() {
    let lists = vec![
        vec![edge("a", "n", "same", 0), edge("b", "n", "same", 0)],
        vec![edge("c", "n", "other", 0), edge("d", "n", "beyond", 0)],
    ];
    match begin_edge_rerank(&lists, EdgeReranker::CrossEncoder, true, None, 3, score(0.5)) {
        Ok(RerankStep::NeedRanking(passages)) => assert_eq!(passages, strings(&["same", "other"])),
        other => panic!("{other:?}"),
    }
    let ranked =
        vec![(s("other"), score(0.9)), (s("unknown"), score(0.8)), (s("same"), score(0.5))];
    let hits = finish_edges_by_ranking(&lists, &ranked, 3, score(0.5));
    assert_eq!(edge_uuids(&hits), strings(&["c", "b"]));
    assert_eq!(values(&hits.scores), vec![0.9, 0.5]);
    let hits = finish_edges_by_ranking(&lists, &ranked, 3, score(0.6));
    assert_eq!(edge_uuids(&hits), strings(&["c"]));
}

#[test]
fn without_a_model_or_a_center_an_order_that_needs_one_is_refused() {
    let edges: Vec<Vec<EntityEdge>> = Vec::new();
    match begin_edge_rerank(&edges, EdgeReranker::CrossEncoder, false, None, 3, score(0.0)) {
        Err(ChronicleError::InvalidInput(m)) => assert_eq!(
            m,
            "edge cross_encoder reranker requested but no CrossEncoderClient was provided"
        ),
        other => panic!("{other:?}"),
    }
    match begin_edge_rerank(&edges, EdgeReranker::NodeDistance, true, None, 3, score(0.0)) {
        Err(ChronicleError::InvalidInput(m)) => {
            assert_eq!(m, "No center node provided for Node Distance reranker");
        }
        other => panic!("{other:?}"),
    }
    let nodes: Vec<Vec<EntityNode>> = Vec::new();
    match begin_node_rerank(&nodes, NodeReranker::CrossEncoder, false, None, 3, score(0.0)) {
        Err(ChronicleError::InvalidInput(m)) => assert_eq!(
            m,
            "node cross_encoder reranker requested but no CrossEncoderClient was provided"
        ),
        other => panic!("{other:?}"),
    }
    match begin_node_rerank(&nodes, NodeReranker::NodeDistance, true, None, 3, score(0.0)) {
        Err(ChronicleError::InvalidInput(m)) => {
            assert_eq!(m, "No center node provided for Node Distance reranker");
        }
        other => panic!("{other:?}"),
    }
    let episodes: Vec<Vec<EpisodicNode>> = Vec::new();
    match begin_episode_rerank(&episodes, EpisodeReranker::CrossEncoder, false, 3, score(0.0)) {
        Err(ChronicleError::InvalidInput(m)) => assert_eq!(
            m,
            "episode cross_encoder reranker requested but no CrossEncoderClient was provided"
        ),
        other => panic!("{other:?}"),
    }
    let communities: Vec<Vec<CommunityNode>> = Vec::new();
    match begin_community_rerank(
        &communities,
        CommunityReranker::CrossEncoder,
        false,
        3,
        score(0.0),
    ) {
        Err(ChronicleError::InvalidInput(m)) => assert_eq!(
            m,
            "community cross_encoder reranker requested but no CrossEncoderClient was provided"
        ),
        other => panic!("{other:?}"),
    }
}

#[test]
fn facts_by_nearness_come_in_the_order_of_their_sources() {
    let lists = vec![vec![
        edge("a", "far", "fa", 0),
        edge("b", "near", "fb", 0),
        edge("c", "center", "fc", 0),
        edge("d", "far", "fd", 0),
        edge("e", "near", "fe", 0),
    ]];
    let min = score(0.0);
    match begin_edge_rerank(&lists, EdgeReranker::NodeDistance, false, Some("center"), 10, min) {
        Ok(RerankStep::NeedConnections(uuids)) => assert_eq!(uuids, strings(&["far", "near"])),
        other => panic!("{other:?}"),
    }
    let hits = finish_edges_by_distance(&lists, "center", &strings(&["near"]), 10, min);
    assert_eq!(edge_uuids(&hits), strings(&["c", "b", "e", "a", "d"]));
    assert_eq!(values(&hits.scores), vec![10.0, 1.0, 0.0]);
    // The least score holds for the fusion that comes before, too.
    let hits = finish_edges_by_distance(&lists, "center", &strings(&["near"]), 10, score(0.5));
    assert_eq!(edge_uuids(&hits), strings(&["b"]));
    assert_eq!(values(&hits.scores), vec![1.0]);
}

#[test]
fn diversity_asks_for_embeddings_and_ends_by_scores() {
    let lists = vec![vec![edge("a", "n", "fa", 0), edge("b", "n", "fb", 0)], vec![edge("a", "n", "fa", 0)]];
    match begin_edge_rerank(&lists, EdgeReranker::Mmr, false, None, 10, score(0.0)) {
        Ok(RerankStep::NeedEmbeddings(uuids)) => assert_eq!(uuids, strings(&["a", "b"])),
        other => panic!("{other:?}"),
    }
    let mut embeddings: StringMap<Vec<u32>> = StringMap::new();
    embeddings.insert(s("b"), vec![1]);
    embeddings.insert(s("z"), vec![2]);
    let candidates = mmr_candidates(&strings(&["a", "b"]), &embeddings);
    assert_eq!(candidates, vec![(s("b"), vec![1])]);
    let hits = finish_by_scores(
        &lists,
        &strings(&["a", "b"]),
        &vec![score(-1.0), score(0.25)],
        10,
        score(-2.0),
    );
    assert_eq!(edge_uuids(&hits), strings(&["b", "a"]));
    let hits = finish_by_scores(
        &lists,
        &strings(&["a", "b"]),
        &vec![score(-1.0), score(0.25)],
        10,
        score(0.0),
    );
    assert_eq!(edge_uuids(&hits), strings(&["b"]));
    assert_eq!(values(&hits.scores), vec![0.25]);
}

#[test]
fn equal_scores_keep_their_order() {
    let lists = vec![vec![edge("a", "n", "fa", 0), edge("b", "n", "fb", 0)]];
    let hits = finish_by_scores(
        &lists,
        &strings(&["b", "a"]),
        &vec![score(0.5), score(0.5)],
        10,
        score(0.0),
    );
    assert_eq!(edge_uuids(&hits), strings(&["b", "a"]));
}

#[test]
fn nodes_by_mentions_come_by_rising_numbers() {
    let lists = vec![vec![node("a", "A"), node("b", "B"), node("c", "C")]];
    match begin_node_rerank(&lists, NodeReranker::EpisodeMentions, false, None, 5, score(0.0)) {
        Ok(RerankStep::NeedMentionCounts(uuids)) => assert_eq!(uuids, strings(&["a", "b", "c"])),
        other => panic!("{other:?}"),
    }
    let mut counts: StringMap<u64> = StringMap::new();
    counts.insert(s("a"), 5);
    counts.insert(s("c"), 2);
    let hits = finish_nodes_by_mentions(&lists, &counts, 5, score(0.0));
    assert_eq!(node_uuids(&hits), strings(&["c", "a", "b"]));
    assert_eq!(values(&hits.scores), vec![2.0, 5.0, f64::INFINITY]);
    let hits = finish_nodes_by_mentions(&lists, &counts, 1, score(0.0));
    assert_eq!(node_uuids(&hits), strings(&["c"]));
}

#[test]
fn nodes_by_ranking_and_by_nearness() {
    let lists = vec![vec![node("a", "Ada"), node("b", "Bob"), node("c", "Cy")]];
    match begin_node_rerank(&lists, NodeReranker::CrossEncoder, true, None, 5, score(0.0)) {
        Ok(RerankStep::NeedRanking(names)) => assert_eq!(names, strings(&["Ada", "Bob", "Cy"])),
        other => panic!("{other:?}"),
    }
    let ranked = vec![(s("Cy"), score(2.0)), (s("Ada"), score(-1.0))];
    let hits = finish_nodes_by_ranking(&lists, &ranked, 5, score(0.0));
    assert_eq!(node_uuids(&hits), strings(&["c"]));

    match begin_node_rerank(&lists, NodeReranker::NodeDistance, false, Some("b"), 5, score(0.0)) {
        Ok(RerankStep::NeedConnections(uuids)) => assert_eq!(uuids, strings(&["a", "c"])),
        other => panic!("{other:?}"),
    }
    let hits = finish_nodes_by_distance(&lists, "b", &strings(&["c"]), 5, score(0.0));
    assert_eq!(node_uuids(&hits), strings(&["b", "c", "a"]));
    assert_eq!(values(&hits.scores), vec![10.0, 1.0, 0.0]);
}

#[test]
fn episodes_and_communities_by_ranking() {
    let lists = vec![vec![episode("a", "first"), episode("b", "second")]];
    match begin_episode_rerank(&lists, EpisodeReranker::Rrf, false, 5, score(0.0)) {
        Ok(RerankStep::Done(hits)) => assert_eq!(hits.items[1].uuid, "b"),
        other => panic!("{other:?}"),
    }
    let ranked = vec![(s("second"), score(0.7)), (s("first"), score(0.2))];
    let hits = finish_episodes_by_ranking(&lists, &ranked, 2, score(0.0));
    assert_eq!(hits.items.len(), 2);
    assert_eq!(hits.items[0].uuid, "b");
    // The model scores no more episodes than are asked for.
    let hits = finish_episodes_by_ranking(&lists, &ranked, 1, score(0.0));
    assert_eq!(hits.items.len(), 1);
    assert_eq!(hits.items[0].uuid, "a");

    let lists = vec![vec![community("a", "Chess"), community("b", "Rowing")]];
    match begin_community_rerank(&lists, CommunityReranker::CrossEncoder, true, 5, score(0.0)) {
        Ok(RerankStep::NeedRanking(names)) => assert_eq!(names, strings(&["Chess", "Rowing"])),
        other => panic!("{other:?}"),
    }
    let ranked = vec![(s("Rowing"), score(0.7))];
    let hits = finish_communities_by_ranking(&lists, &ranked, 5, score(0.0));
    assert_eq!(hits.items[0].uuid, "b");
    match begin_community_rerank(&lists, CommunityReranker::Mmr, false, 5, score(0.0)) {
        Ok(RerankStep::NeedEmbeddings(uuids)) => assert_eq!(uuids, strings(&["a", "b"])),
        other => panic!("{other:?}"),
    }
}

#[test]
fn a_center_that_is_not_among_the_nodes_is_not_added() {
    let (uuids, scores) =
        node_distance_rerank(&strings(&["a", "b"]), "z", &strings(&["b"]), score(0.0));
    assert_eq!(uuids, strings(&["b", "a"]));
    assert_eq!(values(&scores), vec![1.0, 0.0]);
    let (uuids, _) = node_distance_rerank(&strings(&["a", "b"]), "z", &strings(&["b"]), score(0.1));
    assert_eq!(uuids, strings(&["b"]));
}

#[test]
fn mentions_below_the_least_score_go() {
    let mut counts: StringMap<u64> = StringMap::new();
    counts.insert(s("a"), 1);
    counts.insert(s("b"), 3);
    let (uuids, scores) = episode_mentions_rerank(&strings(&["a", "b", "c"]), &counts, score(2.0));
    assert_eq!(uuids, strings(&["b", "c"]));
    assert_eq!(values(&scores), vec![3.0, f64::INFINITY]);
}

#[test]
fn a_blank_query_has_no_text_and_another_is_put_on_one_line() {
    assert_eq!(query_text(" \n\t"), None);
    assert_eq!(query_text(""), None);
    assert_eq!(query_text("who\nknows\n"), Some(s("who knows ")));
}

#[test]
fn a_single_nameless_group_is_no_group() {
    assert!(normalize_group_ids(&strings(&[""])).is_empty());
    assert_eq!(normalize_group_ids(&strings(&["", "a"])), strings(&["", "a"]));
    assert_eq!(normalize_group_ids(&strings(&["a"])), strings(&["a"]));
    assert!(normalize_group_ids(&Vec::new()).is_empty());
}

#[test]
fn embeddings_are_needed_for_similarity_and_diversity() {
    assert!(needs_query_embedding(&edge_hybrid_search_rrf()));
    assert!(needs_query_embedding(&combined_hybrid_search_rrf()));
    let words = |reranker: EdgeReranker| SearchConfig {
        edge_config: Some(EdgeSearchConfig::with(vec![EdgeSearchMethod::Bm25], reranker)),
        node_config: None,
        episode_config: Some(EpisodeSearchConfig::default()),
        community_config: None,
        limit: 5,
        reranker_min_score: score(0.0),
    };
    assert!(!needs_query_embedding(&words(EdgeReranker::Rrf)));
    assert!(needs_query_embedding(&words(EdgeReranker::Mmr)));
}

#[test]
fn a_center_orders_facts_by_nearness() {
    let near = recipe_for_center(true, 4);
    assert_eq!(near.limit, 4);
    assert_eq!(near.edge_config.as_ref().unwrap().reranker, EdgeReranker::NodeDistance);
    let anywhere = recipe_for_center(false, 6);
    assert_eq!(anywhere.limit, 6);
    assert_eq!(anywhere.edge_config.as_ref().unwrap().reranker, EdgeReranker::Rrf);
    assert!(anywhere.node_config.is_none());
}

#[test]
fn results_of_the_scopes_are_put_together() {
    let r = gather_results(
        Hits { items: vec![edge("a", "n", "f", 0)], scores: vec![score(1.0)] },
        Hits { items: vec![node("b", "B")], scores: vec![score(2.0)] },
        Hits { items: vec![episode("c", "x")], scores: vec![score(3.0)] },
        Hits { items: vec![community("d", "D")], scores: vec![score(4.0)] },
    );
    assert_eq!(r.edges[0].uuid, "a");
    assert_eq!(r.nodes[0].uuid, "b");
    assert_eq!(r.episodes[0].uuid, "c");
    assert_eq!(r.communities[0].uuid, "d");
    assert_eq!(values(&r.community_reranker_scores), vec![4.0]);
    let r = SearchResults::of(vec![edge("a", "n", "f", 0)], vec![node("b", "B")]);
    assert_eq!((r.edges.len(), r.nodes.len(), r.episodes.len()), (1, 1, 0));
    assert!(r.edge_reranker_scores.is_empty());
}

#[test]
fn a_filter_on_facts_lists_their_identifiers() {
    let f = only_edges(&vec![edge("a", "n", "x", 0), edge("b", "n", "y", 0)]);
    assert_eq!(f.edge_uuids, Some(strings(&["a", "b"])));
    assert!(f.node_labels.is_none());
}
