use chronicle_core::driver::{Neighbor, NodeNeighbors};
use chronicle_core::errors::ChronicleError;
use chronicle_core::pipeline::community_ops::{
    apply_community_update, cluster_summaries, determine_entity_community, label_propagation,
    make_community, next_community_step, summarize_pair_request, summary_description_request,
    take_merged, truncate_at_sentence, CommunityStep,
};
use chronicle_core::time::Timestamp;
use chronicle_core::types::{CommunityNode, EntityNode};

fn s(text: &str) -> String {
    text.to_string()
}

fn strings(texts: &[&str]) -> Vec<String> {
    texts.iter().map(|t| s(t)).collect()
}

fn at(secs: i64) -> Timestamp {
    Timestamp::from_parts(secs, 0).unwrap()
}

fn node(uuid: &str, name: &str) -> EntityNode {
    let mut n = EntityNode::new(s(name), s("group"), at(0));
    n.uuid = s(uuid);
    n
}


fn community(uuid: &str) -> CommunityNode {
    let mut c = CommunityNode::new(s("old name"), s("group"), at(0));
    c.uuid = s(uuid);
    c
}

fn neighbors(uuid: &str, others: &[(&str, u64)]) -> NodeNeighbors {
    NodeNeighbors {
        node_uuid: s(uuid),
        neighbors: others
            .iter()
            .map(|(o, n)| Neighbor { node_uuid: s(o), edge_count: *n })
            .collect(),
    }
}

#[test]
fn an_empty_cluster_is_refused() {
    match cluster_summaries(&[]) {
        Err(ChronicleError::InvalidInput(m)) => {
            assert_eq!(m, "build_community requires a non-empty cluster");
        }
        other => panic!("{other:?}"),
    }
}

#[test]
fn summaries_are_merged_by_halves_until_one_is_left() {
    let mut summaries = strings(&["a", "b", "c", "d", "e"]);
    let mut rounds = 0;
    loop {
        match next_community_step(&summaries) {
            CommunityStep::Merge { pairs, carried } => {
                if rounds == 0 {
                    assert_eq!(pairs, vec![(s("a"), s("c")), (s("b"), s("d"))]);
                    assert_eq!(carried, Some(s("e")));
                }
                let answers: Vec<String> = pairs.iter().map(|(l, r)| format!("{l}{r}")).collect();
                summaries = take_merged(&answers, carried);
                rounds += 1;
            }
            CommunityStep::Describe { summary } => {
                assert_eq!(summary, "acbde");
                break;
            }
        }
    }
    assert_eq!(rounds, 3);
}

#[test]
fn answers_are_shortened() {
    let long = format!("{}. {}", "x".repeat(600), "y".repeat(600));
    let merged = take_merged(&vec![long], None);
    assert_eq!(merged[0], format!("{}.", "x".repeat(600)));
    assert_eq!(truncate_at_sentence("One. Two", 6), "One.");
    assert_eq!(truncate_at_sentence("abc def", 4), "abc");
}

#[test]
fn a_community_has_a_membership_for_each_entity() {
    let cluster = [node("a", "Ada"), node("b", "Bob")];
    let (c, edges) = make_community(&cluster, s("They met."), s("A meeting"), at(7));
    assert_eq!(c.name, "A meeting");
    assert_eq!(c.summary, "They met.");
    assert_eq!(c.group_id, "group");
    assert_eq!(c.labels, strings(&["Community"]));
    let targets: Vec<&str> = edges.iter().map(|e| e.target_node_uuid.as_str()).collect();
    assert_eq!(targets, vec!["a", "b"]);
    assert_eq!(edges[0].source_node_uuid, c.uuid);
    assert_eq!(edges[0].created_at, at(7));
}

#[test]
fn an_entity_stays_in_its_community_or_joins_that_of_most_neighbours() {
    let (c, joins) = determine_entity_community(Some(community("own")), &vec![community("x")]);
    assert_eq!(c.unwrap().uuid, "own");
    assert!(!joins);
    let around = vec![community("x"), community("y"), community("y"), community("x")];
    let (c, joins) = determine_entity_community(None, &around);
    assert_eq!(c.unwrap().uuid, "x");
    assert!(joins);
    let around = vec![community("x"), community("y"), community("y")];
    assert_eq!(determine_entity_community(None, &around).0.unwrap().uuid, "y");
    let (c, joins) = determine_entity_community(None, &Vec::new());
    assert!(c.is_none());
    assert!(!joins);
}

#[test]
fn an_update_writes_summary_and_name_and_adds_the_membership_of_who_joins() {
    let (c, edges) =
        apply_community_update(community("c"), &node("a", "Ada"), s("new"), s("name"), true, at(3));
    assert_eq!(c.uuid, "c");
    assert_eq!(c.summary, "new");
    assert_eq!(c.name, "name");
    assert_eq!(edges.len(), 1);
    assert_eq!(edges[0].source_node_uuid, "c");
    assert_eq!(edges[0].target_node_uuid, "a");
    let (_, edges) =
        apply_community_update(community("c"), &node("a", "Ada"), s("new"), s("name"), false, at(3));
    assert!(edges.is_empty());
}

#[test]
fn requests_carry_the_summaries() {
    let request = summarize_pair_request("left \"one\"", "right");
    assert_eq!(request.prompt_name, Some(s("summarize_nodes.summarize_pair")));
    assert!(request.messages[1].content.contains(r#""left \"one\"""#));
    let request = summary_description_request("about chess");
    assert_eq!(request.prompt_name, Some(s("summarize_nodes.summary_description")));
    assert!(request.messages[1].content.contains(r#""about chess""#));
}

#[test]
fn communities_partition_the_nodes() {
    let projection = vec![
        neighbors("a", &[("b", 3), ("c", 2)]),
        neighbors("b", &[("a", 3), ("c", 2)]),
        neighbors("c", &[("a", 2), ("b", 2), ("d", 1)]),
        neighbors("d", &[("c", 1), ("e", 4)]),
        neighbors("e", &[("d", 4)]),
        neighbors("alone", &[("unknown", 9)]),
    ];
    let found = label_propagation(&projection);
    let mut all: Vec<String> = found.iter().flatten().cloned().collect();
    all.sort();
    assert_eq!(all, strings(&["a", "alone", "b", "c", "d", "e"]));
    assert!(found.iter().all(|c| !c.is_empty()));
    assert!(found.contains(&strings(&["alone"])));
}

#[test]
fn two_nodes_with_one_edge_end_up_together_and_the_passes_end() {
    let projection = vec![neighbors("a", &[("b", 1)]), neighbors("b", &[("a", 1)])];
    let found = label_propagation(&projection);
    assert_eq!(found, vec![strings(&["a", "b"])]);
    let projection = vec![neighbors("a", &[("b", 2)]), neighbors("b", &[("a", 2)])];
    let found = label_propagation(&projection);
    assert_eq!(found, vec![strings(&["a"]), strings(&["b"])]);
}

#[test]
fn a_community_stays_inside_one_component() {
    let projection = vec![
        neighbors("a", &[("b", 3)]),
        neighbors("x", &[("y", 1)]),
        neighbors("b", &[("a", 3), ("c", 1)]),
        neighbors("y", &[("x", 1), ("gone", 7)]),
        neighbors("c", &[("b", 1)]),
    ];
    let found = label_propagation(&projection);
    assert!(found.contains(&strings(&["x", "y"])));
    for community in &found {
        let ours = community.iter().filter(|u| ["a", "b", "c"].contains(&u.as_str())).count();
        assert!(ours == 0 || ours == community.len());
    }
}

#[test]
fn absent_neighbors_change_nothing() {
    let with = vec![
        neighbors("a", &[("gone", 9), ("b", 1), ("lost", 4)]),
        neighbors("b", &[("a", 1), ("gone", 9)]),
        neighbors("c", &[("gone", 9)]),
    ];
    let without = vec![
        neighbors("a", &[("b", 1)]),
        neighbors("b", &[("a", 1)]),
        neighbors("c", &[]),
    ];
    assert_eq!(label_propagation(&with), label_propagation(&without));
    assert_eq!(label_propagation(&with), vec![strings(&["a", "b"]), strings(&["c"])]);
}
