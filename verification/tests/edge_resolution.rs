use chronicle_core::llm::ModelSize;
use chronicle_core::pipeline::edge_ops::{
    begin_edge_resolution, candidate_pools, collect_resolutions, dedupe_extracted,
    duplicates_request, edges_from_extraction, embed_facts, extract_edges_request, facts_to_embed,
    summary_request, take_duplicates, take_timestamps, timestamps_request, with_summary,
    EdgeResolution, EdgeStep,
};
use chronicle_core::prompts::models::{EdgeDuplicate, EdgeTimestamps, ExtractedEdge};
use chronicle_core::time::Timestamp;
use chronicle_core::types::{EntityEdge, EntityNode, EpisodeType, EpisodicNode};

fn s(text: &str) -> String {
    text.to_string()
}

fn strings(texts: &[&str]) -> Vec<String> {
    texts.iter().map(|t| s(t)).collect()
}

fn at(secs: i64) -> Timestamp {
    Timestamp::from_parts(secs, 0).unwrap()
}

fn node(uuid: &str, name: &str) -> EntityNode {
    let mut n = EntityNode::new(s(name), s("group"), at(0));
    n.uuid = s(uuid);
    n
}

fn edge(uuid: &str, source: &str, target: &str, fact: &str) -> EntityEdge {
    let mut e = EntityEdge::new(s(source), s(target), s("KNOWS"), s(fact), s("group"));
    e.uuid = s(uuid);
    e
}

fn episode(uuid: &str, content: &str, secs: i64) -> EpisodicNode {
    let mut e = EpisodicNode::new(
        s("name"),
        s("group"),
        EpisodeType::Message,
        s("chat"),
        s(content),
        at(0),
        at(secs),
    );
    e.uuid = s(uuid);
    e
}

fn dated(uuid: &str, fact: &str, from: Option<i64>, to: Option<i64>) -> EntityEdge {
    let mut e = edge(uuid, "a", "b", fact);
    e.valid_at = from.map(at);
    e.invalid_at = to.map(at);
    e
}

fn extracted(source: &str, target: &str, fact: &str, valid_at: Option<&str>) -> ExtractedEdge {
    ExtractedEdge {
        source_entity_name: s(source),
        target_entity_name: s(target),
        relation_type: s("KNOWS"),
        fact: s(fact),
        valid_at: valid_at.map(s),
        invalid_at: None,
        episode_indices: vec![0],
    }
}

fn uuids(edges: &[EntityEdge]) -> Vec<String> {
    edges.iter().map(|e| e.uuid.clone()).collect()
}

#[test]
fn facts_are_asked_for_only_where_there_are_entities() {
    let e = episode("p", "Ada met Bob.", 60);
    assert!(extract_edges_request(&e, &[], &[], None).is_none());
    let request =
        extract_edges_request(&e, &[node("a", "Ada")], &[episode("q", "Hi.", 0)], Some("Be brief."))
            .unwrap();
    assert_eq!(request.prompt_name, Some(s("extract_edges.edge")));
    assert_eq!(request.model_size, ModelSize::Medium);
    let text = &request.messages[1].content;
    assert!(text.contains("Ada met Bob."));
    assert!(text.contains("Be brief."));
    assert!(text.contains("1970-01-01T00:01:00+00:00"));
    assert!(text.contains(r#""content": "Hi.""#));
}

#[test]
fn only_facts_between_two_known_entities_are_kept() {
    let nodes = [node("a", "Ada"), node("b", "Bob")];
    let edges = edges_from_extraction(
        &vec![
            extracted("Ada", "Bob", "Ada met Bob", Some("2025-04-30T00:00:00Z")),
            extracted("Ada", "Cy", "Ada met Cy", None),
            extracted("Cy", "Bob", "Cy met Bob", None),
            extracted("Ada", "Ada", "Ada met Ada", None),
            extracted("Ada", "Bob", "   ", None),
            extracted("Bob", "Ada", "Bob left", Some("some day")),
        ],
        &nodes,
        "group",
        "p",
    );
    assert_eq!(edges.len(), 2);
    assert_eq!(edges[0].source_node_uuid, "a");
    assert_eq!(edges[0].target_node_uuid, "b");
    assert_eq!(edges[0].name, "KNOWS");
    assert_eq!(edges[0].episodes, strings(&["p"]));
    assert_eq!(edges[0].valid_at, Some(at(1_745_971_200)));
    assert_eq!(edges[1].fact, "Bob left");
    assert_eq!(edges[1].valid_at, None);
    assert_ne!(edges[0].uuid, edges[1].uuid);
}

#[test]
fn of_equal_facts_the_first_is_left() {
    let edges = vec![
        edge("1", "a", "b", "Ada  met Bob"),
        edge("2", "a", "b", "ada met bob"),
        edge("3", "b", "a", "ada met bob"),
        edge("4", "a", "b", "Ada saw Bob"),
    ];
    let left = dedupe_extracted(&edges);
    assert_eq!(uuids(&left), strings(&["1", "3", "4"]));
    assert_eq!(facts_to_embed(&left)[2], "Ada saw Bob");
    let embedded = embed_facts(left, &vec![vec![1], vec![2]]);
    assert_eq!(embedded[1].fact_embedding, Some(vec![2]));
    assert_eq!(embedded[2].fact_embedding, None);
}

#[test]
fn pools_do_not_overlap_and_the_first_is_bounded() {
    let between: Vec<EntityEdge> = (0..12).map(|i| edge(&format!("b{i}"), "a", "b", "f")).collect();
    let hits = vec![edge("b1", "a", "b", "f"), edge("b11", "a", "b", "f"), edge("h", "x", "y", "g")];
    let (related, existing) = candidate_pools(&between, &hits);
    assert_eq!(related.len(), 10);
    assert_eq!(uuids(&existing), strings(&["b11", "h"]));
}

#[test]
fn a_new_fact_without_dates_is_dated_by_the_model() {
    let step = begin_edge_resolution(dated("n", "f", None, None), Vec::new(), Vec::new(), "p", at(99));
    let undated = match step {
        EdgeStep::AskTimestamps(undated) => undated,
        other => panic!("{other:?}"),
    };
    let request = timestamps_request(&undated.edge, at(60));
    assert_eq!(request.prompt_name, Some(s("extract_edges.extract_timestamps")));
    assert_eq!(request.model_size, ModelSize::Small);
    assert!(request.messages[1].content.contains("1970-01-01T00:01:00+00:00"));
    let answer = EdgeTimestamps {
        valid_at: Some(s("1970-01-01T00:00:10Z")),
        invalid_at: Some(s("1970-01-01T00:00:20Z")),
    };
    let r = take_timestamps(undated, Some(answer), at(99));
    assert_eq!(r.resolved.valid_at, Some(at(10)));
    assert_eq!(r.resolved.invalid_at, Some(at(20)));
    assert_eq!(r.resolved.expired_at, Some(at(99)));
    assert!(r.invalidated.is_empty());
}

#[test]
fn a_fact_that_could_not_be_dated_stays_without_dates() {
    let step = begin_edge_resolution(dated("n", "f", None, None), Vec::new(), Vec::new(), "p", at(99));
    match step {
        EdgeStep::AskTimestamps(undated) => {
            let r = take_timestamps(undated, None, at(99));
            assert_eq!(r.resolved.valid_at, None);
            assert_eq!(r.resolved.expired_at, None);
        }
        other => panic!("{other:?}"),
    }
}

#[test]
fn a_new_fact_with_a_date_is_not_dated() {
    let step =
        begin_edge_resolution(dated("n", "f", Some(5), None), Vec::new(), Vec::new(), "p", at(99));
    match step {
        EdgeStep::Done(r) => {
            assert_eq!(r.resolved.valid_at, Some(at(5)));
            assert_eq!(r.resolved.expired_at, None);
        }
        other => panic!("{other:?}"),
    }
}

#[test]
fn a_fact_that_is_known_is_that_fact() {
    let mut known = edge("k", "a", "b", "ada met BOB");
    known.episodes = strings(&["q"]);
    let step = begin_edge_resolution(
        edge("n", "a", "b", "Ada met Bob"),
        vec![edge("x", "a", "b", "other"), known],
        Vec::new(),
        "p",
        at(99),
    );
    match step {
        EdgeStep::Done(r) => {
            assert_eq!(r.resolved.uuid, "k");
            assert_eq!(r.resolved.episodes, strings(&["q", "p"]));
            assert!(r.invalidated.is_empty());
        }
        other => panic!("{other:?}"),
    }
}

#[test]
fn the_model_compares_with_continuous_numbers() {
    let step = begin_edge_resolution(
        dated("n", "Ada works at Acme", Some(50), None),
        vec![dated("r", "Ada's job", None, None)],
        vec![dated("e", "Ada works at Beta", Some(10), None)],
        "p",
        at(99),
    );
    let question = match step {
        EdgeStep::AskDuplicates(question) => question,
        other => panic!("{other:?}"),
    };
    let request = duplicates_request(&question);
    assert_eq!(request.prompt_name, Some(s("dedupe_edges.resolve_edge")));
    assert_eq!(request.model_size, ModelSize::Small);
    let text = &request.messages[1].content;
    assert!(text.contains(r#"[{'idx': 0, 'fact': "Ada's job"}]"#));
    assert!(text.contains("[{'idx': 1, 'fact': 'Ada works at Beta'}]"));
    let answer = EdgeDuplicate { duplicate_facts: vec![1, -1], contradicted_facts: vec![7, 1, -2] };
    match take_duplicates(question, &answer, "p", at(99)) {
        EdgeStep::Done(r) => {
            assert_eq!(r.resolved.uuid, "n");
            assert_eq!(r.invalidated.len(), 1);
            assert_eq!(r.invalidated[0].uuid, "e");
            assert_eq!(r.invalidated[0].invalid_at, Some(at(50)));
            assert_eq!(r.invalidated[0].expired_at, Some(at(99)));
        }
        other => panic!("{other:?}"),
    }
}

#[test]
fn a_duplicate_takes_over_the_known_fact() {
    let step = begin_edge_resolution(
        dated("n", "Ada works at Acme", None, None),
        vec![dated("r", "Ada is employed by Acme", Some(10), None)],
        Vec::new(),
        "p",
        at(99),
    );
    match step {
        EdgeStep::AskDuplicates(question) => {
            let answer = EdgeDuplicate { duplicate_facts: vec![5, 0], contradicted_facts: vec![] };
            match take_duplicates(question, &answer, "p", at(99)) {
                EdgeStep::Done(r) => {
                    assert_eq!(r.resolved.uuid, "r");
                    assert_eq!(r.resolved.episodes, strings(&["p"]));
                }
                other => panic!("{other:?}"),
            }
        }
        other => panic!("{other:?}"),
    }
}

#[test]
fn a_new_fact_that_is_older_than_what_it_contradicts_arrives_expired() {
    let step = begin_edge_resolution(
        dated("n", "Ada works at Acme", Some(10), None),
        Vec::new(),
        vec![dated("e", "Ada works at Beta", Some(50), None), dated("f", "Ada works", Some(30), None)],
        "p",
        at(99),
    );
    match step {
        EdgeStep::AskDuplicates(question) => {
            let answer = EdgeDuplicate { duplicate_facts: vec![], contradicted_facts: vec![0, 1] };
            match take_duplicates(question, &answer, "p", at(99)) {
                EdgeStep::Done(r) => {
                    assert_eq!(r.resolved.invalid_at, Some(at(30)));
                    assert_eq!(r.resolved.expired_at, Some(at(99)));
                    assert!(r.invalidated.is_empty());
                }
                other => panic!("{other:?}"),
            }
        }
        other => panic!("{other:?}"),
    }
}

#[test]
fn resolutions_are_put_together_in_order() {
    let outcome = collect_resolutions(&vec![
        EdgeResolution { resolved: edge("1", "a", "b", "f"), invalidated: vec![edge("x", "a", "b", "g")] },
        EdgeResolution {
            resolved: edge("2", "a", "b", "h"),
            invalidated: vec![edge("y", "a", "b", "i"), edge("z", "a", "b", "j")],
        },
    ]);
    assert_eq!(uuids(&outcome.resolved_edges), strings(&["1", "2"]));
    assert_eq!(uuids(&outcome.invalidated_edges), strings(&["x", "y", "z"]));
}

#[test]
fn summaries_are_asked_for_by_entity() {
    let mut n = node("a", "Ada");
    n.summary = s("A pioneer.");
    let request = summary_request(&n, &episode("p", "Ada spoke.", 0), &[]);
    assert_eq!(request.prompt_name, Some(s("summarize_nodes.summarize_context")));
    assert_eq!(request.model_size, ModelSize::Small);
    let text = &request.messages[1].content;
    assert!(text.contains("A pioneer."));
    assert!(text.contains(r#""Ada spoke.""#));
    assert_eq!(with_summary(n, s("New.")).summary, "New.");
}
