//! Communities of entities.
use chronicle_core::driver::{Neighbor, NodeNeighbors};
use chronicle_core::pipeline::community_ops::{label_propagation, truncate_at_sentence};

fn nn(uuid: &str, neighbors: &[(&str, u64)]) -> NodeNeighbors {
    NodeNeighbors {
        node_uuid: uuid.to_string(),
        neighbors: neighbors
            .iter()
            .map(|(u, c)| Neighbor {
                node_uuid: u.to_string(),
                edge_count: *c,
            })
            .collect(),
    }
}

#[test]
fn label_propagation_chain_merges() {
    let projection = vec![
        nn("a", &[("b", 2), ("c", 2)]),
        nn("b", &[("a", 2), ("c", 2)]),
        nn("c", &[("a", 2), ("b", 2)]),
    ];
    let clusters = label_propagation(&projection);
    assert_eq!(
        clusters.len(),
        1,
        "triangle should collapse to one community"
    );
    let mut members = clusters[0].clone();
    members.sort();
    assert_eq!(members, vec!["a", "b", "c"]);
}

#[test]
fn label_propagation_tie_breaks_to_max() {
    let projection = vec![nn("x", &[("y", 1), ("z", 1)]), nn("y", &[]), nn("z", &[])];
    let clusters = label_propagation(&projection);
    let x_cluster = clusters
        .iter()
        .find(|c| c.contains(&"x".to_string()))
        .expect("x must be in some cluster");
    assert!(
        x_cluster.contains(&"z".to_string()),
        "x must join z's (larger-int) community on tie, got {x_cluster:?}"
    );
    assert!(
        !x_cluster.contains(&"y".to_string()),
        "x must NOT join y's (smaller-int) community on tie"
    );
}

#[test]
fn label_propagation_isolated_keeps_own() {
    let projection = vec![nn("solo", &[])];
    let clusters = label_propagation(&projection);
    assert_eq!(clusters, vec![vec!["solo".to_string()]]);
}

#[test]
fn label_propagation_converges_two_components() {
    let projection = vec![
        nn("a", &[("b", 3), ("c", 3)]),
        nn("b", &[("a", 3), ("c", 3)]),
        nn("c", &[("a", 3), ("b", 3)]),
        nn("x", &[("y", 3), ("z", 3)]),
        nn("y", &[("x", 3), ("z", 3)]),
        nn("z", &[("x", 3), ("y", 3)]),
    ];
    let clusters = label_propagation(&projection);
    assert_eq!(
        clusters.len(),
        2,
        "two disjoint triangles → two communities"
    );
    for cluster in &clusters {
        assert_eq!(cluster.len(), 3, "each triangle is fully merged");
    }
}

#[test]
fn label_propagation_caps_on_oscillating_input() {
    let projection = vec![nn("a", &[("b", 1)]), nn("b", &[("a", 1)])];
    let clusters = label_propagation(&projection);
    let total: usize = clusters.iter().map(|c| c.len()).sum();
    assert_eq!(total, 2, "both nodes are returned, no infinite loop");
}

#[test]
fn truncate_at_sentence_returns_short_text_unchanged() {
    let text = "Short text.";
    assert_eq!(truncate_at_sentence(text, 1000), text);
}

#[test]
fn truncate_at_sentence_truncates_at_last_boundary() {
    let text = "First sentence. Second sentence is longer and overflows the limit.";
    let out = truncate_at_sentence(text, 20);
    assert_eq!(out, "First sentence.");
}

#[test]
fn truncate_at_sentence_no_boundary_truncates_at_max() {
    let text = "aaaaaaaaaa bbbbbbbbbb cccccccccc";
    let out = truncate_at_sentence(text, 15);
    assert_eq!(out, "aaaaaaaaaa bbbb");
}

#[test]
fn truncate_at_sentence_question_and_exclamation_boundaries() {
    let text = "Why? Because it works! And then a very long trailing clause overflows.";
    let out = truncate_at_sentence(text, 25);
    assert_eq!(out, "Why? Because it works!");
}

#[test]
fn truncate_at_sentence_counts_unicode_codepoints() {
    let text = "😀😀😀😀😀. trailing";
    assert_eq!(truncate_at_sentence(text, 100), text);
}
