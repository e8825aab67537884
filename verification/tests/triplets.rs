use chronicle_core::collections::StringMap;
use chronicle_core::errors::ChronicleError;
use chronicle_core::json::Json;
use chronicle_core::pipeline::edge_ops::{EdgeResolution, EdgeStep};
use chronicle_core::pipeline::maintenance::{
    edges_to_delete, first_resolved, merge_node, nodes_to_delete, require_episode, require_saga,
    union_labels, FoundEnd, TripletDraft, TripletEnd,
};
use chronicle_core::time::Timestamp;
use chronicle_core::types::{EntityEdge, EntityNode, EpisodeType, EpisodicNode, SagaNode};

fn s(text: &str) -> String {
    text.to_string()
}

fn strings(texts: &[&str]) -> Vec<String> {
    texts.iter().map(|t| s(t)).collect()
}

fn at(secs: i64) -> Timestamp {
    Timestamp::from_parts(secs, 0).unwrap()
}

fn node(uuid: &str, name: &str) -> EntityNode {
    let mut n = EntityNode::new(s(name), s("group"), at(0));
    n.uuid = s(uuid);
    n
}

fn edge(uuid: &str, source: &str, target: &str, fact: &str) -> EntityEdge {
    let mut e = EntityEdge::new(s(source), s(target), s("KNOWS"), s(fact), s("group"));
    e.uuid = s(uuid);
    e
}

fn episode(uuid: &str, content: &str, secs: i64) -> EpisodicNode {
    let mut e = EpisodicNode::new(
        s("name"),
        s("group"),
        EpisodeType::Message,
        s("chat"),
        s(content),
        at(0),
        at(secs),
    );
    e.uuid = s(uuid);
    e
}

fn draft() -> TripletDraft {
    let mut source = node("s", "Ada\nL.");
    source.attributes.insert(s("born"), Json::Int(1815));
    let mut target = node("t", "London");
    target.name_embedding = Some(vec![7]);
    TripletDraft { source, edge: edge("e", "", "", "Ada lives in London"), target }
}

#[test]
fn what_has_no_embedding_is_embedded_on_one_line() {
    let d = draft();
    assert_eq!(d.source_text(), Some(s("Ada L.")));
    assert_eq!(d.target_text(), None);
    assert_eq!(d.fact_text(), Some(s("Ada lives in London")));
    let ends = d.take_embeddings(Some(vec![1]), Some(vec![2]), None, at(50));
    assert_eq!(ends.source.name_embedding, Some(vec![1]));
    assert_eq!(ends.target.name_embedding, Some(vec![7]));
    assert_eq!(ends.edge.fact_embedding, None);
    assert_eq!(ends.episode.valid_at, at(50));
    assert_eq!(ends.episode.source, EpisodeType::Text);
    assert_eq!(ends.episode.content, "");
    assert_eq!(ends.episode.group_id, "group");
}

#[test]
fn a_fact_with_a_beginning_is_resolved_at_its_beginning() {
    let mut d = draft();
    d.edge.valid_at = Some(at(11));
    let ends = d.take_embeddings(None, None, None, at(50));
    assert_eq!(ends.episode.valid_at, at(11));
}

#[test]
fn a_fact_is_attached_to_what_its_entities_resolved_to() {
    let ends = draft().take_embeddings(None, None, None, at(50));
    let mut stored = node("s", "Ada Lovelace");
    stored.summary = s("A pioneer.");
    stored.labels = strings(&["Entity"]);
    let next = ends
        .take_ends(FoundEnd::Stored(stored), FoundEnd::Resolved(vec![node("k", "London")]))
        .unwrap();
    assert_eq!(next.source.name, "Ada Lovelace");
    assert_eq!(next.source.summary, "A pioneer.");
    assert!(matches!(next.source.attributes.get("born"), Some(Json::Int(1815))));
    assert_eq!(next.target.uuid, "k");

    let pools = next.take_existing(None);
    assert_eq!(pools.edge.uuid, "e");
    assert_eq!(pools.edge.source_node_uuid, "s");
    assert_eq!(pools.edge.target_node_uuid, "k");
    match pools.resolve(Vec::new(), Vec::new(), at(60)) {
        EdgeStep::AskTimestamps(undated) => assert_eq!(undated.edge.uuid, "e"),
        other => panic!("{other:?}"),
    }
    let resolution =
        EdgeResolution { resolved: pools.edge.clone(), invalidated: vec![edge("x", "s", "k", "y")] };
    let results = pools.take_resolution(resolution);
    let nodes: Vec<&str> = results.nodes.iter().map(|n| n.uuid.as_str()).collect();
    assert_eq!(nodes, vec!["s", "k"]);
    let edges: Vec<&str> = results.edges.iter().map(|e| e.uuid.as_str()).collect();
    assert_eq!(edges, vec!["e", "x"]);
}

#[test]
fn a_stored_fact_between_other_entities_is_not_written_over() {
    let ends = draft().take_embeddings(None, None, None, at(50));
    let next = ends
        .take_ends(FoundEnd::Stored(node("s", "Ada")), FoundEnd::Stored(node("t", "London")))
        .unwrap();
    let pools = next.take_existing(Some(edge("e", "s", "elsewhere", "other")));
    assert_ne!(pools.edge.uuid, "e");
    assert_eq!(pools.edge.uuid.len(), 36);

    let ends = draft().take_embeddings(None, None, None, at(50));
    let next = ends
        .take_ends(FoundEnd::Stored(node("s", "Ada")), FoundEnd::Stored(node("t", "London")))
        .unwrap();
    let pools = next.take_existing(Some(edge("e", "s", "t", "other")));
    assert_eq!(pools.edge.uuid, "e");
}

#[test]
fn an_empty_resolution_of_an_end_is_refused() {
    let ends = draft().take_embeddings(None, None, None, at(50));
    match ends.take_ends(FoundEnd::Resolved(Vec::new()), FoundEnd::Resolved(Vec::new())) {
        Err(ChronicleError::InvalidInput(m)) => assert_eq!(m, "source node resolution empty"),
        other => panic!("{other:?}"),
    }
    let ends = draft().take_embeddings(None, None, None, at(50));
    match ends.take_ends(FoundEnd::Stored(node("s", "Ada")), FoundEnd::Resolved(Vec::new())) {
        Err(ChronicleError::InvalidInput(m)) => assert_eq!(m, "target node resolution empty"),
        other => panic!("{other:?}"),
    }
    assert!(first_resolved(&Vec::new(), TripletEnd::Target).is_err());
    assert_eq!(first_resolved(&vec![node("a", "A")], TripletEnd::Source).unwrap().uuid, "a");
}

#[test]
fn labels_are_united_in_order() {
    assert_eq!(
        union_labels(&strings(&["Person", "Entity"]), &strings(&["Artist", "Person"])),
        strings(&["Artist", "Entity", "Person"])
    );
}

#[test]
fn what_a_caller_says_is_merged_into_the_known_entity() {
    let mut known = node("k", "Ada");
    known.labels = strings(&["Entity"]);
    known.summary = s("old");
    known.attributes.insert(s("a"), Json::Int(1));
    known.attributes.insert(s("b"), Json::Int(2));
    let mut given = node("g", "Augusta");
    given.labels = strings(&["Person"]);
    given.summary = s("");
    given.attributes.insert(s("b"), Json::Int(3));
    let merged = merge_node(known.clone(), &given);
    assert_eq!(merged.uuid, "k");
    assert_eq!(merged.name, "Ada");
    assert_eq!(merged.summary, "old");
    assert_eq!(merged.labels, strings(&["Entity", "Person"]));
    assert!(matches!(merged.attributes.get("a"), Some(Json::Int(1))));
    assert!(matches!(merged.attributes.get("b"), Some(Json::Int(3))));
    given.summary = s("new");
    given.labels = Vec::new();
    let merged = merge_node(known, &given);
    assert_eq!(merged.summary, "new");
    assert_eq!(merged.labels, strings(&["Entity"]));
}

#[test]
fn an_episode_takes_its_own_facts_and_entities_with_it() {
    let mut own = edge("own", "a", "b", "x");
    own.episodes = strings(&["p", "q"]);
    let mut shared = edge("shared", "a", "b", "y");
    shared.episodes = strings(&["q", "p"]);
    let bare = edge("bare", "a", "b", "z");
    assert_eq!(edges_to_delete(&vec![own, shared, bare], "p"), strings(&["own"]));

    let mut counts: StringMap<u64> = StringMap::new();
    counts.insert(s("once"), 1);
    counts.insert(s("twice"), 2);
    let nodes = vec![node("once", "A"), node("twice", "B"), node("unknown", "C")];
    assert_eq!(nodes_to_delete(&nodes, &counts), strings(&["once"]));
}

#[test]
fn what_is_missing_is_named() {
    assert_eq!(require_episode(Some(episode("p", "c", 0)), "p").unwrap().uuid, "p");
    match require_episode(None, "p") {
        Err(ChronicleError::EpisodeNotFound { uuid }) => assert_eq!(uuid, "p"),
        other => panic!("{other:?}"),
    }
    let saga = SagaNode::new(s("trip"), s("group"), at(0));
    assert_eq!(require_saga(Some(saga), "x").unwrap().name, "trip");
    match require_saga(None, "x") {
        Err(ChronicleError::NodeNotFound { uuid }) => assert_eq!(uuid, "x"),
        other => panic!("{other:?}"),
    }
}
