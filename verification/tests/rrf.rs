//! Reciprocal rank fusion.
use chronicle_core::score::Score;
use chronicle_core::search::rrf::rrf;

fn fuse(results: &[Vec<String>], min_score: f64) -> (Vec<String>, Vec<f64>) {
    let (uuids, scores) = rrf(results, 1, Score { bits: min_score.to_bits() });
    (uuids, scores.iter().map(|s| f64::from_bits(s.bits)).collect())
}

#[test]
fn rrf_fuses_two_rankings() {
    let results = vec![
        vec!["a".to_string(), "b".to_string(), "c".to_string()],
        vec!["b".to_string(), "a".to_string()],
    ];
    let (uuids, scores) = fuse(&results, 0.0);
    assert_eq!(uuids.len(), 3);
    assert!(scores[0] >= scores[1] && scores[1] >= scores[2]);
    assert_eq!(uuids[2], "c");
}

#[test]
fn rrf_min_score_filters() {
    let results = vec![vec!["a".to_string(), "b".to_string()]];
    let (uuids, _) = fuse(&results, 0.6);
    assert_eq!(uuids, vec!["a".to_string()]);
}

#[test]
fn rrf_min_score_inclusive_boundary() {
    let results = vec![vec!["a".to_string()]];
    let (uuids, scores) = fuse(&results, 1.0);
    assert_eq!(
        uuids,
        vec!["a".to_string()],
        "score == min_score must be included"
    );
    assert!((scores[0] - 1.0).abs() < 1e-10);
}

#[test]
fn rrf_tie_order_is_first_seen_stable() {
    let results = vec![vec!["x".to_string()], vec!["y".to_string()]];
    let (uuids, scores) = fuse(&results, 0.0);
    assert_eq!(uuids.len(), 2);
    assert_eq!(scores[0], scores[1], "x and y must have equal scores");
    assert_eq!(uuids[0], "x", "first-seen item must win on tie");
    assert_eq!(uuids[1], "y");
}

#[test]
fn rrf_single_list_preserves_rank_order() {
    let results = vec![vec![
        "first".to_string(),
        "second".to_string(),
        "third".to_string(),
    ]];
    let (uuids, scores) = fuse(&results, 0.0);
    assert_eq!(uuids.len(), 3);
    assert!(scores[0] > scores[1] && scores[1] > scores[2]);
    assert_eq!(uuids[0], "first");
}

#[test]
fn rrf_empty_input() {
    let (uuids, scores) = fuse(&[], 0.0);
    assert!(uuids.is_empty());
    assert!(scores.is_empty());
}

#[test]
fn rrf_all_filtered_by_min_score() {
    let results = vec![vec!["a".to_string()]];
    let (uuids, _) = fuse(&results, 2.0);
    assert!(uuids.is_empty());
}
