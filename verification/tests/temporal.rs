//! Facts that contradict one another.
use chronicle_core::pipeline::temporal::{
    expire_new_edge_against_candidates, resolve_edge_contradictions,
};
use chronicle_core::time::Timestamp;
use chronicle_core::types::EntityEdge;

fn t(h: u32) -> Timestamp {
    Timestamp::from_parts(1_767_225_600 + 3600 * i64::from(h), 0).unwrap()
}

fn edge_with(valid: Option<u32>, invalid: Option<u32>) -> EntityEdge {
    let mut e = EntityEdge::new("a".into(), "b".into(), "R".into(), "f".into(), "g".into());
    e.valid_at = valid.map(t);
    e.invalid_at = invalid.map(t);
    e
}

#[test]
fn skips_when_existing_already_invalid_before_new_valid() {
    let new_edge = edge_with(Some(3), None);
    let existing = edge_with(Some(1), Some(2));
    let out = resolve_edge_contradictions(&new_edge, vec![existing], t(12));
    assert!(out.is_empty());
}

#[test]
fn skips_when_new_already_invalid_before_existing_valid() {
    let new_edge = edge_with(Some(1), Some(2));
    let existing = edge_with(Some(3), None);
    let out = resolve_edge_contradictions(&new_edge, vec![existing], t(12));
    assert!(out.is_empty());
}

#[test]
fn invalidates_older_overlapping_edge() {
    let new_edge = edge_with(Some(5), None);
    let existing = edge_with(Some(1), None);
    let out = resolve_edge_contradictions(&new_edge, vec![existing], t(12));
    assert_eq!(out.len(), 1);
    assert_eq!(out[0].invalid_at, Some(t(5)));
    assert_eq!(out[0].expired_at, Some(t(12)));
}

#[test]
fn preserves_preexisting_expired_at() {
    let new_edge = edge_with(Some(5), None);
    let mut existing = edge_with(Some(1), None);
    existing.expired_at = Some(t(2));
    let out = resolve_edge_contradictions(&new_edge, vec![existing], t(12));
    assert_eq!(out[0].expired_at, Some(t(2)));
}

#[test]
fn no_invalidation_without_valid_at_on_either_side() {
    let new_edge = edge_with(None, None);
    let existing = edge_with(Some(1), None);
    let out = resolve_edge_contradictions(&new_edge, vec![existing], t(12));
    assert!(out.is_empty());
}

#[test]
fn empty_candidates_returns_empty() {
    let new_edge = edge_with(Some(5), None);
    let out = resolve_edge_contradictions(&new_edge, vec![], t(12));
    assert!(out.is_empty());
}

#[test]
fn equal_valid_at_does_not_invalidate() {
    let new_edge = edge_with(Some(5), None);
    let existing = edge_with(Some(5), None);
    let out = resolve_edge_contradictions(&new_edge, vec![existing], t(12));
    assert!(out.is_empty());
}

#[test]
fn newer_existing_not_invalidated() {
    let new_edge = edge_with(Some(5), None);
    let existing = edge_with(Some(7), None);
    let out = resolve_edge_contradictions(&new_edge, vec![existing], t(12));
    assert!(out.is_empty());
}

#[test]
fn boundary_existing_invalid_equals_new_valid_skips() {
    let new_edge = edge_with(Some(3), None);
    let existing = edge_with(Some(1), Some(3));
    let out = resolve_edge_contradictions(&new_edge, vec![existing], t(12));
    assert!(out.is_empty());
}

#[test]
fn boundary_new_invalid_equals_existing_valid_skips() {
    let new_edge = edge_with(Some(1), Some(3));
    let existing = edge_with(Some(3), None);
    let out = resolve_edge_contradictions(&new_edge, vec![existing], t(12));
    assert!(out.is_empty());
}

#[test]
fn invalidates_when_intervals_overlap_with_invalid_bound() {
    let new_edge = edge_with(Some(5), None);
    let existing = edge_with(Some(1), Some(10));
    let out = resolve_edge_contradictions(&new_edge, vec![existing], t(12));
    assert_eq!(out.len(), 1);
    assert_eq!(out[0].invalid_at, Some(t(5)));
    assert_eq!(out[0].expired_at, Some(t(12)));
}

#[test]
fn mixed_candidates_only_qualifying_invalidated() {
    let new_edge = edge_with(Some(5), None);
    let older = edge_with(Some(1), None);
    let equal = edge_with(Some(5), None);
    let newer = edge_with(Some(9), None);
    let disjoint = edge_with(Some(2), Some(4));
    let out =
        resolve_edge_contradictions(&new_edge, vec![older, equal, newer, disjoint], t(12));
    assert_eq!(out.len(), 1);
    assert_eq!(out[0].valid_at, Some(t(1)));
    assert_eq!(out[0].invalid_at, Some(t(5)));
}

#[test]
fn new_edge_expired_by_later_candidate() {
    let mut new_edge = edge_with(Some(3), None);
    let candidate = edge_with(Some(7), None);
    expire_new_edge_against_candidates(&mut new_edge, &[candidate], t(12));
    assert_eq!(new_edge.invalid_at, Some(t(7)));
    assert_eq!(new_edge.expired_at, Some(t(12)));
}

#[test]
fn earliest_qualifying_candidate_wins() {
    let mut new_edge = edge_with(Some(3), None);
    let c_late = edge_with(Some(9), None);
    let c_early = edge_with(Some(5), None);
    expire_new_edge_against_candidates(&mut new_edge, &[c_late, c_early], t(12));
    assert_eq!(new_edge.invalid_at, Some(t(5)));
    assert_eq!(new_edge.expired_at, Some(t(12)));
}

#[test]
fn candidate_not_after_new_edge_does_not_expire() {
    let mut new_edge = edge_with(Some(3), None);
    let candidate = edge_with(Some(3), None);
    expire_new_edge_against_candidates(&mut new_edge, &[candidate], t(12));
    assert_eq!(new_edge.invalid_at, None);
    assert_eq!(new_edge.expired_at, None);
}

#[test]
fn new_edge_with_invalid_at_but_no_expired_at_gets_stamped() {
    let mut new_edge = edge_with(Some(3), Some(4));
    let candidate = edge_with(Some(7), None);
    expire_new_edge_against_candidates(&mut new_edge, &[candidate], t(12));
    assert_eq!(new_edge.expired_at, Some(t(12)));
    assert_eq!(new_edge.invalid_at, Some(t(4)));
}

#[test]
fn already_expired_new_edge_untouched() {
    let mut new_edge = edge_with(Some(3), None);
    new_edge.expired_at = Some(t(2));
    let candidate = edge_with(Some(7), None);
    expire_new_edge_against_candidates(&mut new_edge, &[candidate], t(12));
    assert_eq!(new_edge.expired_at, Some(t(2)));
    assert_eq!(new_edge.invalid_at, None);
}

#[test]
fn none_valid_at_candidates_do_not_expire_new_edge() {
    let mut new_edge = edge_with(Some(3), None);
    let c_none = edge_with(None, None);
    expire_new_edge_against_candidates(&mut new_edge, &[c_none], t(12));
    assert_eq!(new_edge.invalid_at, None);
    assert_eq!(new_edge.expired_at, None);
}

#[test]
fn new_edge_without_valid_at_not_expired() {
    let mut new_edge = edge_with(None, None);
    let candidate = edge_with(Some(7), None);
    expire_new_edge_against_candidates(&mut new_edge, &[candidate], t(12));
    assert_eq!(new_edge.invalid_at, None);
    assert_eq!(new_edge.expired_at, None);
}

#[test]
fn mixed_none_and_some_candidates_pick_earliest_some() {
    let mut new_edge = edge_with(Some(3), None);
    let c_none = edge_with(None, None);
    let c_late = edge_with(Some(9), None);
    let c_early = edge_with(Some(5), None);
    expire_new_edge_against_candidates(&mut new_edge, &[c_none, c_late, c_early], t(12));
    assert_eq!(new_edge.invalid_at, Some(t(5)));
    assert_eq!(new_edge.expired_at, Some(t(12)));
}
