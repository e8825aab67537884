use chronicle_core::collections::{StringMap, StringSet};
use chronicle_core::errors::ChronicleError;
use chronicle_core::pipeline::bulk::{
    facts_without_embedding, fill_fact_embeddings, fill_name_embeddings, materialize_episode,
    names_without_embedding, take_unseen_edges, take_unseen_nodes, RawEpisode,
    EDGE_DEDUP_MIN_SCORE,
};
use chronicle_core::pipeline::bulk_dedup::{
    dedupe_resolved_nodes, duplicate_pairs, find_batch_candidates, has_common_word, project_edges,
};
use chronicle_core::pipeline::bulk_ingest::{
    keep_first_nodes, nodes_by_episode, unite_maps, BulkContext, BulkNodes,
};
use chronicle_core::pipeline::edge_ops::EdgeResolutionOutcome;
use chronicle_core::pipeline::node_ops::NodeResolutionOutcome;
use chronicle_core::time::Timestamp;
use chronicle_core::types::{EntityEdge, EntityNode, EpisodeType, EpisodicNode};

fn s(text: &str) -> String {
    text.to_string()
}

fn strings(texts: &[&str]) -> Vec<String> {
    texts.iter().map(|t| s(t)).collect()
}

fn at(secs: i64) -> Timestamp {
    Timestamp::from_parts(secs, 0).unwrap()
}

fn node(uuid: &str, name: &str) -> EntityNode {
    let mut n = EntityNode::new(s(name), s("group"), at(0));
    n.uuid = s(uuid);
    n
}

fn edge(uuid: &str, source: &str, target: &str, fact: &str) -> EntityEdge {
    let mut e = EntityEdge::new(s(source), s(target), s("KNOWS"), s(fact), s("group"));
    e.uuid = s(uuid);
    e
}

fn episode(uuid: &str, content: &str, secs: i64) -> EpisodicNode {
    let mut e = EpisodicNode::new(
        s("name"),
        s("group"),
        EpisodeType::Message,
        s("chat"),
        s(content),
        at(0),
        at(secs),
    );
    e.uuid = s(uuid);
    e
}

fn kept(nodes: Vec<EntityNode>) -> NodeResolutionOutcome {
    let mut uuid_map: StringMap<String> = StringMap::new();
    for n in &nodes {
        uuid_map.insert(n.uuid.clone(), n.uuid.clone());
    }
    NodeResolutionOutcome { nodes, uuid_map, duplicates: Vec::new() }
}

fn uuids(nodes: &[EntityNode]) -> Vec<String> {
    nodes.iter().map(|n| n.uuid.clone()).collect()
}

fn edge_uuids(edges: &[EntityEdge]) -> Vec<String> {
    edges.iter().map(|e| e.uuid.clone()).collect()
}

#[test]
fn the_threshold_of_facts_is_three_fifths() {
    assert_eq!(f32::from_bits(EDGE_DEDUP_MIN_SCORE), 0.6);
}

#[test]
fn raw_episodes_become_fresh_or_stored_ones() {
    let raw = |uuid: Option<&str>| RawEpisode {
        name: s("talk"),
        uuid: uuid.map(s),
        content: s("hello"),
        source_description: s("chat"),
        source: EpisodeType::Message,
        reference_time: at(30),
    };
    let fresh = materialize_episode(&raw(None), None, "group", at(90)).unwrap();
    assert_eq!(fresh.content, "hello");
    assert_eq!(fresh.valid_at, at(30));
    assert_eq!(fresh.created_at, at(90));
    assert_eq!(fresh.uuid.len(), 36);
    let stored =
        materialize_episode(&raw(Some("p")), Some(episode("p", "old", 1)), "group", at(90)).unwrap();
    assert_eq!(stored.content, "old");
    match materialize_episode(&raw(Some("p")), None, "group", at(90)) {
        Err(ChronicleError::EpisodeNotFound { uuid }) => assert_eq!(uuid, "p"),
        other => panic!("{other:?}"),
    }
}

#[test]
fn entities_of_the_same_name_are_merged_across_a_batch() {
    let outcomes = vec![
        kept(vec![node("a1", "Ada"), node("b", "Bob")]),
        kept(vec![node("a2", "ada"), node("a3", "ADA")]),
    ];
    let (lists, map) = dedupe_resolved_nodes(&outcomes);
    assert_eq!(uuids(&lists[0]), strings(&["a1", "b"]));
    assert_eq!(uuids(&lists[1]), strings(&["a1"]));
    assert_eq!(map.get("a2"), Some(&s("a1")));
    assert_eq!(map.get("a3"), Some(&s("a1")));
    assert_eq!(map.get("b"), Some(&s("b")));
}

#[test]
fn facts_may_be_the_same_with_a_common_word_or_a_similar_embedding() {
    assert!(has_common_word("Ada met Bob", "bob left"));
    assert!(!has_common_word("Ada met", "bob left"));
    let e = edge("e", "a", "b", "Ada met Bob");
    let pool = vec![
        e.clone(),
        edge("word", "a", "b", "MET"),
        edge("like", "a", "b", "saw"),
        edge("unlike", "a", "b", "ran"),
        edge("elsewhere", "a", "c", "met"),
    ];
    let found = find_batch_candidates(&e, &pool, &vec![true, false, true, false, true]);
    assert_eq!(edge_uuids(&found), strings(&["word", "like"]));
}

#[test]
fn duplicate_facts_become_the_one_with_the_smallest_identifier() {
    let lists = vec![
        vec![edge("m", "a", "b", "first")],
        vec![edge("k", "a", "b", "second"), edge("z", "a", "b", "third")],
    ];
    let resolved = vec![
        edge("k", "a", "b", "second"),
        edge("k", "a", "b", "second"),
        edge("z", "a", "b", "third"),
    ];
    let pool = vec![lists[0][0].clone(), lists[1][0].clone(), lists[1][1].clone()];
    let pairs = duplicate_pairs(&pool, &resolved);
    assert_eq!(pairs, vec![(s("m"), s("k"))]);
    let out = project_edges(&lists, &pairs);
    assert_eq!(edge_uuids(&out[0]), strings(&["k"]));
    assert_eq!(out[0][0].fact, "second");
    assert_eq!(edge_uuids(&out[1]), strings(&["k", "z"]));
}

#[test]
fn embeddings_go_to_what_has_none() {
    let mut edges = vec![edge("a", "x", "y", "fa"), edge("b", "x", "y", "fb"), edge("c", "x", "y", "fc")];
    edges[1].fact_embedding = Some(vec![5]);
    assert_eq!(facts_without_embedding(&edges), strings(&["fa", "fc"]));
    let next = fill_fact_embeddings(&mut edges, &vec![vec![0], vec![1], vec![2]], 1);
    assert_eq!(next, 3);
    assert_eq!(edges[0].fact_embedding, Some(vec![1]));
    assert_eq!(edges[1].fact_embedding, Some(vec![5]));
    assert_eq!(edges[2].fact_embedding, Some(vec![2]));

    let mut nodes = vec![node("a", "A"), node("b", "B")];
    nodes[0].name_embedding = Some(vec![5]);
    assert_eq!(names_without_embedding(&nodes), strings(&["B"]));
    fill_name_embeddings(&mut nodes, &vec![vec![6]]);
    assert_eq!(nodes[0].name_embedding, Some(vec![5]));
    assert_eq!(nodes[1].name_embedding, Some(vec![6]));
    fill_name_embeddings(&mut nodes, &Vec::new());
    assert_eq!(nodes[1].name_embedding, Some(vec![6]));
}

#[test]
fn what_was_seen_is_left_out() {
    let mut seen = StringSet::new();
    let first = take_unseen_nodes(&vec![node("a", "A"), node("b", "B"), node("a", "A")], &mut seen);
    assert_eq!(uuids(&first), strings(&["a", "b"]));
    let second = take_unseen_nodes(&vec![node("b", "B"), node("c", "C")], &mut seen);
    assert_eq!(uuids(&second), strings(&["c"]));
    let mut seen = StringSet::new();
    assert!(seen.insert(s("x")));
    let edges = take_unseen_edges(&vec![edge("x", "a", "b", "f"), edge("y", "a", "b", "g")], &mut seen);
    assert_eq!(edge_uuids(&edges), strings(&["y"]));
    let lists = keep_first_nodes(&vec![vec![node("a", "A")], vec![node("a", "A"), node("b", "B")]]);
    assert_eq!(uuids(&lists[1]), strings(&["b"]));
}

#[test]
fn lists_go_with_the_last_occurrence_of_an_episode() {
    let episodes = vec![episode("p", "x", 0), episode("q", "y", 0), episode("p", "z", 0)];
    let lists = vec![vec![node("a", "A")], vec![node("b", "B")], vec![node("c", "C")]];
    let out = nodes_by_episode(&episodes, &lists);
    assert_eq!(uuids(&out[0]), strings(&["c"]));
    assert_eq!(uuids(&out[1]), strings(&["b"]));
    assert_eq!(uuids(&out[2]), strings(&["c"]));
}

#[test]
fn later_maps_come_over_earlier_ones() {
    let mut a: StringMap<String> = StringMap::new();
    a.insert(s("x"), s("1"));
    a.insert(s("y"), s("1"));
    let mut b: StringMap<String> = StringMap::new();
    b.insert(s("x"), s("2"));
    let m = unite_maps(&vec![a, b]);
    assert_eq!(m.get("x"), Some(&s("2")));
    assert_eq!(m.get("y"), Some(&s("1")));
}

#[test]
fn a_batch_runs_from_entities_to_results() {
    let context = BulkContext {
        episodes: vec![episode("p", "Ada met Bob", 1), episode("q", "ada met bob again", 2)],
        group_id: s("group"),
        now: at(99),
    };
    let facts = vec![
        vec![edge("f1", "a1", "b1", "Ada met Bob")],
        vec![edge("f2", "a2", "b1", "ada met bob again")],
    ];
    let outcomes = vec![
        kept(vec![node("a1", "Ada"), node("b1", "Bob")]),
        kept(vec![node("a2", "ada")]),
    ];
    let phase = BulkNodes { context, facts }.take_outcomes(&outcomes);
    assert_eq!(uuids(&phase.nodes[1]), strings(&["a1"]));
    assert_eq!(phase.facts[1][0].source_node_uuid, "a1");
    let mentions: Vec<(String, String)> = phase
        .mentions
        .iter()
        .map(|m| (m.source_node_uuid.clone(), m.target_node_uuid.clone()))
        .collect();
    assert_eq!(
        mentions,
        vec![(s("p"), s("a1")), (s("p"), s("b1")), (s("q"), s("a1"))]
    );
    assert_eq!(phase.texts(), strings(&["Ada met Bob", "ada met bob again"]));

    let phase = phase.take_embeddings(&vec![vec![1], vec![2]]);
    assert_eq!(phase.facts[1][0].fact_embedding, Some(vec![2]));
    let pool = phase.pool();
    assert_eq!(edge_uuids(&pool), strings(&["f1", "f2"]));

    let phase = phase.take_resolved(&vec![pool[0].clone(), pool[0].clone()]);
    assert_eq!(edge_uuids(&phase.facts[1]), strings(&["f1"]));
    assert_eq!(uuids(&phase.nodes[0]), strings(&["a1", "b1"]));
    assert!(phase.nodes[1].is_empty());

    let mut map: StringMap<String> = StringMap::new();
    map.insert(s("a1"), s("known"));
    map.insert(s("b1"), s("b1"));
    let nodes = vec![vec![node("known", "Ada"), node("b1", "Bob")], Vec::new()];
    let phase = phase.take_nodes(&nodes, &vec![map, StringMap::new()]);
    assert_eq!(uuids(&phase.nodes), strings(&["known", "b1"]));
    assert_eq!(phase.mentions[0].target_node_uuid, "known");
    assert_eq!(phase.mentions[2].target_node_uuid, "known");
    assert_eq!(phase.facts[0][0].source_node_uuid, "known");
    assert!(phase.facts[1].is_empty());

    let outcomes = vec![
        EdgeResolutionOutcome {
            resolved_edges: vec![phase.facts[0][0].clone()],
            invalidated_edges: vec![edge("old", "known", "b1", "Ada avoids Bob")],
        },
        EdgeResolutionOutcome { resolved_edges: Vec::new(), invalidated_edges: Vec::new() },
    ];
    let batch = phase.take_outcomes(&outcomes);
    assert_eq!(edge_uuids(&batch.edges), strings(&["f1", "old"]));
    let batch = batch.take_embeddings(&vec![vec![3], vec![4]], &vec![vec![5]]);
    assert_eq!(batch.nodes[1].name_embedding, Some(vec![4]));
    assert_eq!(batch.edges[0].fact_embedding, Some(vec![1]));
    assert_eq!(batch.edges[1].fact_embedding, Some(vec![5]));
    let results = batch.finish();
    assert_eq!(results.episodes.len(), 2);
    assert_eq!(results.episodic_edges.len(), 3);
    assert!(results.communities.is_empty());
    assert!(results.community_edges.is_empty());
}
