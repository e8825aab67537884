//! Batches of episodes.
use chronicle_core::collections::StringMap;
use chronicle_core::pipeline::add_episode;
use chronicle_core::pipeline::bulk::{
    build_directed_uuid_map, compress_uuid_map, resolve_edge_pointers,
};
use chronicle_core::types::EntityEdge;

fn pair(a: &str, b: &str) -> (String, String) {
    (a.to_string(), b.to_string())
}

#[test]
fn directed_uuid_map_preserves_direction_and_compresses_paths() {
    let pairs = vec![pair("a", "b"), pair("b", "c")];
    let map = build_directed_uuid_map(&pairs);
    assert_eq!(map.get("a").unwrap(), "c");
    assert_eq!(map.get("b").unwrap(), "c");
    assert_eq!(map.get("c").unwrap(), "c");
}

#[test]
fn directed_uuid_map_respects_target_even_if_lexicographically_smaller() {
    let pairs = vec![pair("z", "a")];
    let map = build_directed_uuid_map(&pairs);
    assert_eq!(map.get("z").unwrap(), "a");
    assert_eq!(map.get("a").unwrap(), "a");
}

#[test]
fn directed_uuid_map_alias_smaller_than_canonical() {
    let pairs = vec![pair("a", "m"), pair("m", "z")];
    let map = build_directed_uuid_map(&pairs);
    assert_eq!(map.get("a").unwrap(), "z");
    assert_eq!(map.get("m").unwrap(), "z");
    assert_eq!(map.get("z").unwrap(), "z");
}

#[test]
fn compress_uuid_map_picks_smallest_root_undirected() {
    let pairs = vec![pair("3", "2"), pair("2", "1")];
    let map = compress_uuid_map(&pairs);
    assert_eq!(map.get("1").unwrap(), "1");
    assert_eq!(map.get("2").unwrap(), "1");
    assert_eq!(map.get("3").unwrap(), "1");
}

#[test]
fn compress_uuid_map_is_direction_insensitive() {
    let map = compress_uuid_map(&[pair("a", "z"), pair("z", "m")]);
    assert_eq!(map.get("a").unwrap(), "a");
    assert_eq!(map.get("m").unwrap(), "a");
    assert_eq!(map.get("z").unwrap(), "a");
}

#[test]
fn bulk_resolve_edge_pointers_remaps_known_uuids_only() {
    let mut map = StringMap::new();
    map.insert("ex-src".to_string(), "canon-src".to_string());
    let edge = EntityEdge::new(
        "ex-src".into(),
        "unknown-tgt".into(),
        "R".into(),
        "f".into(),
        "g".into(),
    );
    let mut edges = vec![edge];
    resolve_edge_pointers(&mut edges, &map);
    let edge = &edges[0];
    assert_eq!(edge.source_node_uuid, "canon-src");
    assert_eq!(edge.target_node_uuid, "unknown-tgt");
}

#[test]
fn add_episode_resolve_edge_pointers_remaps_known_uuids_only() {
    let mut map = StringMap::new();
    map.insert("extracted-src".to_string(), "canonical-src".to_string());
    let edge = EntityEdge::new(
        "extracted-src".into(),
        "unknown-tgt".into(),
        "R".into(),
        "f".into(),
        "g".into(),
    );
    let mut edges = vec![edge];
    add_episode::resolve_edge_pointers(&mut edges, &map);
    let edge = &edges[0];
    assert_eq!(edge.source_node_uuid, "canonical-src");
    assert_eq!(edge.target_node_uuid, "unknown-tgt");
}
