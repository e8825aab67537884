use chronicle_core::chronicle::{permits, AddEpisodeRequest};
use chronicle_core::collections::StringMap;
use chronicle_core::errors::ChronicleError;
use chronicle_core::helpers::RELEVANT_SCHEMA_LIMIT;
use chronicle_core::pipeline::add_episode::{
    apply_summaries, begin_ingest, previous_query, PreviousQuery,
};
use chronicle_core::pipeline::edge_ops::EdgeResolutionOutcome;
use chronicle_core::pipeline::node_ops::NodeResolutionOutcome;
use chronicle_core::time::Timestamp;
use chronicle_core::types::{EntityEdge, EntityNode, EpisodeType, EpisodicNode};

fn s(text: &str) -> String {
    text.to_string()
}

fn strings(texts: &[&str]) -> Vec<String> {
    texts.iter().map(|t| s(t)).collect()
}

fn at(secs: i64) -> Timestamp {
    Timestamp::from_parts(secs, 0).unwrap()
}

fn node(uuid: &str, name: &str) -> EntityNode {
    let mut n = EntityNode::new(s(name), s("group"), at(0));
    n.uuid = s(uuid);
    n
}

fn edge(uuid: &str, source: &str, target: &str, fact: &str) -> EntityEdge {
    let mut e = EntityEdge::new(s(source), s(target), s("KNOWS"), s(fact), s("group"));
    e.uuid = s(uuid);
    e
}

fn episode(uuid: &str, content: &str, secs: i64) -> EpisodicNode {
    let mut e = EpisodicNode::new(
        s("name"),
        s("group"),
        EpisodeType::Message,
        s("chat"),
        s(content),
        at(0),
        at(secs),
    );
    e.uuid = s(uuid);
    e
}

fn request() -> AddEpisodeRequest {
    AddEpisodeRequest::new(
        s("talk"),
        s("Ada met Bob."),
        EpisodeType::Message,
        s("chat"),
        at(1_000),
        s("group"),
    )
}

#[test]
fn context_is_what_the_request_names_or_the_latest_episodes_of_its_group() {
    let mut req = request();
    match previous_query(&req) {
        PreviousQuery::Latest { reference_time, last_n, group_ids } => {
            assert_eq!(reference_time, at(1_000));
            assert_eq!(last_n, RELEVANT_SCHEMA_LIMIT);
            assert_eq!(group_ids, strings(&["group"]));
        }
        other => panic!("{other:?}"),
    }
    req.previous_episode_uuids = Some(strings(&["p1", "p2"]));
    match previous_query(&req) {
        PreviousQuery::Given { uuids } => assert_eq!(uuids, strings(&["p1", "p2"])),
        other => panic!("{other:?}"),
    }
}

#[test]
fn a_request_without_an_identifier_makes_a_fresh_episode() {
    let phase = begin_ingest(request(), Vec::new(), None, at(5_000)).unwrap();
    let e = &phase.context.episode;
    assert_eq!(e.uuid.len(), 36);
    assert_eq!(e.uuid.chars().nth(14), Some('4'));
    assert_eq!(e.name, "talk");
    assert_eq!(e.content, "Ada met Bob.");
    assert_eq!(e.valid_at, at(1_000));
    assert_eq!(e.created_at, at(5_000));
    assert_eq!(e.source, EpisodeType::Message);
    assert!(e.entity_edges.is_empty());
}

#[test]
fn a_request_with_an_identifier_takes_the_stored_episode_or_fails() {
    let mut req = request();
    req.uuid = Some(s("known"));
    let stored = episode("known", "stored", 7);
    let phase = begin_ingest(req, Vec::new(), Some(stored), at(5_000)).unwrap();
    assert_eq!(phase.context.episode.content, "stored");

    let mut req = request();
    req.uuid = Some(s("gone"));
    match begin_ingest(req, Vec::new(), None, at(5_000)) {
        Err(ChronicleError::EpisodeNotFound { uuid }) => assert_eq!(uuid, "gone"),
        other => panic!("{other:?}"),
    }
}

#[test]
fn an_ingestion_points_facts_at_known_entities_and_mentions_every_entity() {
    let phase = begin_ingest(request(), Vec::new(), None, at(5_000)).unwrap();
    let episode_uuid = phase.context.episode.uuid.clone();
    let phase = phase.take_entities(vec![node("n1", "Ada"), node("n2", "Bob")]);
    assert_eq!(phase.extracted.len(), 2);

    let mut uuid_map: StringMap<String> = StringMap::new();
    uuid_map.insert(s("n1"), s("known"));
    uuid_map.insert(s("n2"), s("n2"));
    let mut embedded = node("known", "Ada");
    embedded.name_embedding = Some(vec![9]);
    let outcome = NodeResolutionOutcome {
        nodes: vec![embedded, node("n2", "Bob")],
        uuid_map,
        duplicates: Vec::new(),
    };
    let phase = phase.take_resolution(outcome);
    assert_eq!(phase.extracted[0].uuid, "n1");

    let phase = phase.take_facts(vec![
        edge("f1", "n1", "n2", "Ada met Bob"),
        edge("f2", "n2", "other", "Bob left"),
    ]);
    assert_eq!(phase.edges[0].source_node_uuid, "known");
    assert_eq!(phase.edges[0].target_node_uuid, "n2");
    assert_eq!(phase.edges[1].target_node_uuid, "other");

    let outcome = EdgeResolutionOutcome {
        resolved_edges: vec![edge("f1", "known", "n2", "Ada met Bob")],
        invalidated_edges: vec![edge("f0", "known", "n2", "Ada never met Bob")],
    };
    let phase = phase.take_outcome(outcome);
    let batch = phase.take_summaries(&strings(&["Ada is a pioneer."]));
    assert_eq!(batch.nodes()[0].summary, "Ada is a pioneer.");
    assert_eq!(batch.nodes()[1].summary, "");
    assert_eq!(batch.names(), strings(&["Bob"]));
    assert_eq!(batch.facts(), strings(&["Ada met Bob", "Ada never met Bob"]));

    let batch = batch.take_embeddings(&vec![vec![1]], &vec![vec![2], vec![3]]);
    assert_eq!(batch.nodes()[0].name_embedding, Some(vec![9]));
    assert_eq!(batch.nodes()[1].name_embedding, Some(vec![1]));
    assert_eq!(batch.edges()[1].fact_embedding, Some(vec![3]));
    assert_eq!(batch.now(), at(5_000));
    assert_eq!(batch.request().name, "talk");
    assert_eq!(batch.episode().uuid, episode_uuid);
    assert_eq!(batch.mentions().len(), 2);

    let results = batch.finish(Vec::new(), Vec::new());
    assert_eq!(results.episode.entity_edges, strings(&["f1", "f0"]));
    let targets: Vec<&str> =
        results.episodic_edges.iter().map(|m| m.target_node_uuid.as_str()).collect();
    assert_eq!(targets, vec!["known", "n2"]);
    for m in &results.episodic_edges {
        assert_eq!(m.source_node_uuid, episode_uuid);
        assert_eq!(m.group_id, "group");
        assert_eq!(m.created_at, at(5_000));
    }
    assert!(results.communities.is_empty());
}

#[test]
fn summaries_reach_as_far_as_they_come() {
    let nodes = vec![node("a", "A"), node("b", "B")];
    let out = apply_summaries(&nodes, &strings(&["first"]));
    assert_eq!(out[0].summary, "first");
    assert_eq!(out[1].summary, "");
    let out = apply_summaries(&nodes, &strings(&["first", "second", "third"]));
    assert_eq!(out.len(), 2);
    assert_eq!(out[1].summary, "second");
}

#[test]
fn a_request_starts_without_options() {
    let req = request();
    assert!(req.uuid.is_none());
    assert!(req.saga.is_none());
    assert!(!req.update_communities);
    assert!(req.entity_types.is_none());
    let empty = AddEpisodeRequest::default();
    assert_eq!(empty.name, "");
}

#[test]
fn no_permits_stand_for_the_usual_number() {
    assert_eq!(permits(3), 3);
    assert_eq!(permits(0), 20);
}
