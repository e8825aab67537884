use chronicle_core::json::Json;
use chronicle_core::llm::ModelSize;
use chronicle_core::pipeline::dedup_index::{build_candidate_indexes, find_similar};
use chronicle_core::pipeline::node_ops::{
    build_entity_types_context, candidate_queries, entity_type_name_for_id, labels_for,
    nodes_from_extraction, resolve_with_similarity, DedupResolutionState,
};
use chronicle_core::pipeline::node_resolution::{begin_node_resolution, NodeStep};
use chronicle_core::prompts::models::{ExtractedEntity, NodeDuplicate};
use chronicle_core::time::Timestamp;
use chronicle_core::types::{EntityNode, EpisodeType, EpisodicNode};

fn s(text: &str) -> String {
    text.to_string()
}

fn strings(texts: &[&str]) -> Vec<String> {
    texts.iter().map(|t| s(t)).collect()
}

fn at(secs: i64) -> Timestamp {
    Timestamp::from_parts(secs, 0).unwrap()
}

fn node(uuid: &str, name: &str) -> EntityNode {
    let mut n = EntityNode::new(s(name), s("group"), at(0));
    n.uuid = s(uuid);
    n
}

fn episode(uuid: &str, content: &str, secs: i64) -> EpisodicNode {
    let mut e = EpisodicNode::new(
        s("name"),
        s("group"),
        EpisodeType::Message,
        s("chat"),
        s(content),
        at(0),
        at(secs),
    );
    e.uuid = s(uuid);
    e
}

fn reply(id: i64, candidate: i64) -> NodeDuplicate {
    NodeDuplicate { id, name: s(""), duplicate_candidate_id: candidate }
}

#[test]
fn an_entity_without_candidates_is_new() {
    match begin_node_resolution(vec![node("n1", "Ada Lovelace")], &vec![Vec::new()]) {
        NodeStep::Done(outcome) => {
            assert_eq!(outcome.nodes.len(), 1);
            assert_eq!(outcome.nodes[0].uuid, "n1");
            assert_eq!(outcome.uuid_map.get("n1"), Some(&s("n1")));
            assert!(outcome.duplicates.is_empty());
        }
        other => panic!("{other:?}"),
    }
}

#[test]
fn the_only_entity_of_the_same_name_is_the_same() {
    let known = node("k1", "  ada   LOVELACE ");
    match begin_node_resolution(vec![node("n1", "Ada Lovelace")], &vec![vec![known]]) {
        NodeStep::Done(outcome) => {
            assert_eq!(outcome.nodes[0].uuid, "k1");
            assert_eq!(outcome.uuid_map.get("n1"), Some(&s("k1")));
            assert_eq!(outcome.duplicates.len(), 1);
            assert_eq!(outcome.duplicates[0].0.uuid, "n1");
            assert_eq!(outcome.duplicates[0].1.uuid, "k1");
        }
        other => panic!("{other:?}"),
    }
}

#[test]
fn a_name_that_is_almost_the_same_is_the_same() {
    let known = node("k1", "International Business Machines Corporation");
    let new = node("n1", "International, Business Machines Corporation!");
    match begin_node_resolution(vec![new], &vec![vec![known]]) {
        NodeStep::Done(outcome) => assert_eq!(outcome.nodes[0].uuid, "k1"),
        other => panic!("{other:?}"),
    }
}

#[test]
fn several_of_the_same_name_go_to_the_model() {
    let episode = episode("p", "Sam spoke.", 0);
    let mut first = node("k1", "Sam");
    first.summary = s("x").repeat(200);
    let candidates = vec![vec![first, node("k2", "sam")], Vec::new()];
    let new = vec![node("n1", "Sam"), node("n2", "Bob")];
    let question = match begin_node_resolution(new, &candidates) {
        NodeStep::AskModel(question) => question,
        other => panic!("{other:?}"),
    };
    let request = question.request(&episode, &[]);
    assert_eq!(request.prompt_name, Some(s("dedupe_nodes.nodes")));
    assert_eq!(request.model_size, ModelSize::Medium);
    let text = &request.messages[1].content;
    assert!(text.contains("Sam spoke."));
    assert!(text.contains("\"candidate_id\": 1"));
    assert!(text.contains(&format!("\"summary\": \"{}\"", "x".repeat(120))));
    assert!(text.contains("ENTITIES contains 1 entities with IDs 0 through 0"));

    let outcome = question.take_replies(&vec![reply(5, 0), reply(0, 1), reply(0, 0)]);
    assert_eq!(outcome.nodes[0].uuid, "k2");
    assert_eq!(outcome.nodes[1].uuid, "n2");
    assert_eq!(outcome.uuid_map.get("n1"), Some(&s("k2")));
    assert_eq!(outcome.uuid_map.get("n2"), Some(&s("n2")));
}

#[test]
fn an_answer_that_names_no_candidate_leaves_the_entity_new() {
    for answer in [-1, 2, 99] {
        let candidates = vec![vec![node("k1", "Sam"), node("k2", "sam")]];
        match begin_node_resolution(vec![node("n1", "Sam")], &candidates) {
            NodeStep::AskModel(question) => {
                let outcome = question.take_replies(&vec![reply(0, answer)]);
                assert_eq!(outcome.nodes[0].uuid, "n1");
                assert_eq!(outcome.uuid_map.get("n1"), Some(&s("n1")));
                assert!(outcome.duplicates.is_empty());
            }
            other => panic!("{other:?}"),
        }
    }
}

#[test]
fn without_answers_open_entities_are_new() {
    let candidates = vec![vec![node("k1", "Sam"), node("k2", "sam")]];
    match begin_node_resolution(vec![node("n1", "Sam")], &candidates) {
        NodeStep::AskModel(question) => {
            let outcome = question.take_replies(&Vec::new());
            assert_eq!(outcome.nodes[0].uuid, "n1");
        }
        other => panic!("{other:?}"),
    }
}

#[test]
fn a_short_name_is_not_matched_by_likeness() {
    let indexes = build_candidate_indexes(vec![node("k1", "IBM.")]);
    assert!(find_similar(&indexes, &node("n1", "IBM")).is_none());
}

#[test]
fn a_lookup_by_name_lists_what_stays_open() {
    let indexes = build_candidate_indexes(vec![
        node("k1", "Ada Lovelace"),
        node("k2", "Sam"),
        node("k3", "sam"),
    ]);
    let new = [node("n1", "ada lovelace"), node("n2", "Sam"), node("n3", "Grace Hopper")];
    let mut state = DedupResolutionState::new(3);
    resolve_with_similarity(&new, &indexes, &mut state);
    assert_eq!(state.resolved_nodes[0].as_ref().unwrap().uuid, "k1");
    assert!(state.resolved_nodes[1].is_none());
    assert_eq!(state.unresolved_indices, vec![1, 2]);
    assert_eq!(state.uuid_map.get("n1"), Some(&s("k1")));
    assert_eq!(state.uuid_map.get("n2"), None);
    assert_eq!(state.duplicate_pairs.len(), 1);
}

#[test]
fn a_specific_type_is_passed_on_to_a_known_entity_without_one() {
    let mut new = node("n1", "Ada");
    new.labels = strings(&["Entity", "Person"]);
    let mut known = node("k1", "Ada");
    known.labels = strings(&["Entity"]);
    let indexes = build_candidate_indexes(vec![known]);
    let found = find_similar(&indexes, &new).unwrap();
    assert_eq!(found.uuid, "k1");
    assert_eq!(found.labels, strings(&["Entity", "Person"]));
}

#[test]
fn extracted_entities_are_labelled_by_their_types() {
    let registry = Json::Object(vec![(
        s("Person"),
        Json::Object(vec![(s("description"), Json::Str(s("A human.")))]),
    )]);
    let types = build_entity_types_context(Some(&registry));
    assert_eq!(entity_type_name_for_id(&types, 1), "Person");
    assert_eq!(entity_type_name_for_id(&types, 0), "Entity");
    assert_eq!(entity_type_name_for_id(&types, 2), "Entity");
    assert_eq!(entity_type_name_for_id(&types, -1), "Entity");
    assert_eq!(labels_for("Entity"), strings(&["Entity"]));
    let entity = |name: &str, id: i64| ExtractedEntity {
        name: s(name),
        entity_type_id: id,
        episode_indices: vec![0],
    };
    let nodes = nodes_from_extraction(
        &vec![entity("Ada", 1), entity("  ", 1), entity("Rome", 7)],
        &types,
        "group",
    );
    assert_eq!(nodes.len(), 2);
    assert_eq!(nodes[0].name, "Ada");
    assert_eq!(nodes[0].labels, strings(&["Entity", "Person"]));
    assert_eq!(nodes[1].labels, strings(&["Entity"]));
    assert_eq!(nodes[1].group_id, "group");
    assert_ne!(nodes[0].uuid, nodes[1].uuid);
}

#[test]
fn names_to_search_for_are_on_one_line() {
    assert_eq!(candidate_queries(&vec![node("n1", "Ada\nLovelace")]), strings(&["Ada Lovelace"]));
}
