//! Names that are nearly the same.
use chronicle_core::collections::StringSet;
use chronicle_core::helpers::{normalize_string_exact, utc_now};
use chronicle_core::pipeline::dedup_helpers::{
    build_candidate_indexes, has_high_entropy, hash_shingle, jaccard_similarity, lsh_bands,
    minhash_signature, normalize_name_for_fuzzy, promote_resolved_node, reduce_to_fuzzy,
    shingles, MINHASH_PERMUTATIONS,
};
use chronicle_core::types::EntityNode;

fn sorted(set: &StringSet) -> Vec<String> {
    let mut v = set.to_vec();
    v.sort();
    v
}

fn set_of(items: &[&str]) -> StringSet {
    let mut set = StringSet::new();
    for item in items {
        set.insert(item.to_string());
    }
    set
}

fn ratio(a: &StringSet, b: &StringSet) -> f64 {
    let r = jaccard_similarity(a, b);
    r.numerator as f64 / r.denominator as f64
}

fn node(name: &str) -> EntityNode {
    EntityNode::new(name.to_string(), "g".to_string(), utc_now())
}

#[test]
fn fuzzy_keeps_alnum_and_apostrophe_collapses_ws() {
    assert_eq!(normalize_name_for_fuzzy("O'Brien, Inc."), "o'brien inc");
    assert_eq!(normalize_name_for_fuzzy("  Alice   Smith! "), "alice smith");
    assert_eq!(normalize_name_for_fuzzy("a@#b"), "a b");
    assert_eq!(normalize_name_for_fuzzy("café"), "caf");
}

#[test]
fn high_entropy_short_low_single_token_gated() {
    assert!(!has_high_entropy("aaa"));
    assert!(!has_high_entropy("abc"));
}

#[test]
fn high_entropy_multi_token_escapes_length_gate() {
    assert!(!has_high_entropy("a b"));
}

#[test]
fn high_entropy_long_low_entropy_false() {
    assert!(!has_high_entropy("aaaaaaa"));
}

#[test]
fn high_entropy_long_high_entropy_true() {
    assert!(has_high_entropy("alice smith"));
    assert!(has_high_entropy("abcdef"));
}

#[test]
fn shingles_three_gram_and_edge_cases() {
    assert_eq!(sorted(&shingles("abc")), ["abc"]);
    assert_eq!(sorted(&shingles("abcd")), ["abc", "bcd"]);
    assert!(shingles("ab").is_empty());
    assert_eq!(sorted(&shingles("a")), ["a"]);
    assert!(shingles("").is_empty());
    assert_eq!(sorted(&shingles("a b c d")), ["abc", "bcd"]);
}

#[test]
fn hash_shingle_cross_language_constant() {
    assert_eq!(hash_shingle("abc", 0), 7705568351334315143);
    assert_eq!(hash_shingle("abc", 1), 17109218681013626300);
}

#[test]
fn hash_shingle_deterministic_and_seed_sensitive() {
    assert_eq!(hash_shingle("abc", 0), hash_shingle("abc", 0));
    assert_ne!(hash_shingle("abc", 0), hash_shingle("abc", 1));
}

#[test]
fn minhash_identical_sets_identical_signatures() {
    let s1 = shingles(&normalize_name_for_fuzzy("Alice Smith"));
    let s2 = shingles(&normalize_name_for_fuzzy("alice   smith"));
    let sig1 = minhash_signature(&s1);
    let sig2 = minhash_signature(&s2);
    assert_eq!(sig1, sig2);
    assert_eq!(sig1.len(), MINHASH_PERMUTATIONS);
}

#[test]
fn minhash_empty_shingles_empty_signature() {
    assert!(minhash_signature(&StringSet::new()).is_empty());
}

#[test]
fn lsh_drops_partial_band() {
    let sig: Vec<u64> = (0..32).collect();
    assert_eq!(lsh_bands(&sig).len(), 8);
    let sig: Vec<u64> = (0..6).collect();
    let bands = lsh_bands(&sig);
    assert_eq!(bands.len(), 1);
    assert_eq!(bands[0], vec![0, 1, 2, 3]);
    assert!(lsh_bands(&[]).is_empty());
}

#[test]
fn lsh_identical_names_share_band() {
    let s1 = shingles(&normalize_name_for_fuzzy("Alice Smith"));
    let s2 = shingles(&normalize_name_for_fuzzy("Alice Smith"));
    let b1 = lsh_bands(&minhash_signature(&s1));
    let b2 = lsh_bands(&minhash_signature(&s2));
    assert_eq!(b1, b2);
    assert!(!b1.is_empty());
}

#[test]
fn jaccard_edge_cases() {
    let empty = StringSet::new();
    let a = set_of(&["abc", "bcd"]);
    assert_eq!(ratio(&empty, &empty), 1.0);
    assert_eq!(ratio(&a, &empty), 0.0);
    assert_eq!(ratio(&empty, &a), 0.0);
    assert_eq!(ratio(&a, &a), 1.0);
    let b = set_of(&["xyz"]);
    assert_eq!(ratio(&a, &b), 0.0);
    let c = set_of(&["bcd", "cde"]);
    assert!((ratio(&a, &c) - 1.0 / 3.0).abs() < 1e-12);
}

#[test]
fn candidate_indexes_exact_map_groups_same_normalized_name() {
    let n1 = node("Alice Smith");
    let n2 = node("  alice   smith ");
    let n3 = node("Bob Jones");
    let idx = build_candidate_indexes(vec![n1.clone(), n2.clone(), n3.clone()]);

    let group = idx.normalized_existing.get("alice smith").unwrap();
    assert_eq!(group.len(), 2);
    assert!(idx.nodes_by_uuid.contains_key(&n1.uuid));
    assert!(idx.nodes_by_uuid.contains_key(&n3.uuid));
    assert!(idx.shingles_by_candidate.contains_key(&n1.uuid));
    assert!(!idx.lsh_buckets.is_empty());
    let shared = idx
        .lsh_buckets
        .iter()
        .any(|bucket| bucket.uuids.contains(&n1.uuid) && bucket.uuids.contains(&n2.uuid));
    assert!(shared);
}

#[test]
fn promote_keeps_resolved_when_specific() {
    let extracted = node("x");
    let mut resolved = node("y");
    resolved.labels = vec!["Entity".to_string(), "Person".to_string()];
    let out = promote_resolved_node(&extracted, &resolved);
    assert_eq!(out.labels, vec!["Entity", "Person"]);
}

#[test]
fn promote_upgrades_generic_resolved_from_extracted() {
    let mut extracted = node("x");
    extracted.labels = vec!["Entity".to_string(), "Person".to_string()];
    let resolved = node("y"); // generic: ["Entity"]
    let out = promote_resolved_node(&extracted, &resolved);
    assert_eq!(out.labels, vec!["Entity", "Person"]);
    assert_eq!(out.uuid, resolved.uuid);
}

#[test]
fn promote_noop_when_extracted_also_generic() {
    let extracted = node("x");
    let resolved = node("y");
    let out = promote_resolved_node(&extracted, &resolved);
    assert_eq!(out.labels, vec!["Entity"]);
}

#[test]
fn a_fuzzy_name_is_its_own_fuzzy_form() {
    for name in ["O'Brien, Inc.", "  Alice   Smith! ", "caf\u{e9}\tNo. 9", "!?", ""] {
        let fuzzy = normalize_name_for_fuzzy(name);
        assert!(fuzzy
            .chars()
            .all(|c| c.is_ascii_lowercase() || c.is_ascii_digit() || c == '\'' || c == ' '));
        assert!(!fuzzy.contains("  "));
        assert_eq!(fuzzy.trim(), fuzzy);
        assert_eq!(reduce_to_fuzzy(&fuzzy), fuzzy);
        assert_eq!(normalize_name_for_fuzzy(&fuzzy), fuzzy);
    }
    assert_eq!(reduce_to_fuzzy("a--B  c'd"), "a c'd");
}

#[test]
fn a_normal_form_has_the_fuzzy_name_of_the_name() {
    for name in ["  O'Brien,\tINC. ", "A--B 9", "\u{c9}va No. 9", ""] {
        let normal = normalize_string_exact(name);
        assert_eq!(normalize_name_for_fuzzy(&normal), normalize_name_for_fuzzy(name));
    }
}

#[test]
fn the_indexes_keep_the_known_entities() {
    let nodes = vec![
        EntityNode::new("Ada".to_string(), "g".to_string(), utc_now()),
        EntityNode::new("Bob".to_string(), "g".to_string(), utc_now()),
    ];
    let uuids: Vec<String> = nodes.iter().map(|n| n.uuid.clone()).collect();
    let indexes = build_candidate_indexes(nodes);
    let kept: Vec<String> = indexes.existing_nodes.iter().map(|n| n.uuid.clone()).collect();
    assert_eq!(kept, uuids);
}
