//! Documents cut into chunks.
use chronicle_core::collections::StringMap;
use chronicle_core::document_rag::{
    asks_for_chunks, chunk_hits, chunk_text, chunk_texts, chunk_to_entity_node, chunk_uuid,
    node_to_chunk_hit, nodes_from_chunks, DocumentChunk, DOCUMENT_CHUNK_LABEL,
};
use chronicle_core::errors::ChronicleError;
use chronicle_core::helpers::utc_now;
use chronicle_core::json::Json;
use chronicle_core::score::Score;

fn bits(v: &[f32]) -> Vec<u32> {
    v.iter().map(|x| x.to_bits()).collect()
}

#[test]
fn chunk_text_empty_or_zero_returns_empty() {
    assert!(chunk_text("   ", 100, 10).is_empty());
    assert!(chunk_text("hello", 0, 0).is_empty());
}

#[test]
fn chunk_text_short_returns_single_trimmed() {
    assert_eq!(
        chunk_text("  hello world  ", 100, 10),
        vec!["hello world".to_string()]
    );
}

#[test]
fn chunk_text_splits_with_overlap_and_terminates() {
    let text = "aaaa bbbb cccc dddd eeee ffff";
    let chunks = chunk_text(text, 10, 4);
    assert!(chunks.len() >= 3);
    assert!(chunks.iter().all(|c| c.chars().count() <= 10));
    assert!(chunks.iter().all(|c| !c.is_empty()));
}

#[test]
fn chunk_text_prefers_whitespace_boundary() {
    let chunks = chunk_text("alpha beta gamma", 8, 0);
    assert_eq!(chunks[0], "alpha");
}

fn sample_chunk() -> DocumentChunk {
    let mut md = StringMap::new();
    md.insert("source".into(), Json::Str("kb.pdf".into()));
    DocumentChunk {
        doc_id: "doc1".into(),
        chunk_index: 2,
        text: "hello world".into(),
        metadata: md,
    }
}

#[test]
fn chunk_uuid_is_deterministic_and_stable() {
    let a = chunk_uuid("g1", "doc1", 2);
    let b = chunk_uuid("g1", "doc1", 2);
    let c = chunk_uuid("g1", "doc1", 3);
    assert_eq!(a, b);
    assert_ne!(a, c);
    assert_eq!(a.len(), 36);
}

#[test]
fn build_node_sets_text_embedding_label_attrs() {
    let node = chunk_to_entity_node(&sample_chunk(), "g1", bits(&[0.1, 0.2, 0.3]), utc_now());
    assert_eq!(node.name, "hello world");
    assert_eq!(node.group_id, "g1");
    assert_eq!(node.name_embedding, Some(bits(&[0.1, 0.2, 0.3])));
    assert!(node.labels.contains(&"Entity".to_string()));
    assert!(node.labels.contains(&DOCUMENT_CHUNK_LABEL.to_string()));
    assert_eq!(
        node.attributes.get("doc_id").and_then(|v| v.as_str()).map(|s| s.as_str()),
        Some("doc1")
    );
    assert_eq!(
        node.attributes.get("chunk_index").and_then(|v| v.as_u64()),
        Some(2)
    );
    assert_eq!(
        node.attributes.get("source").and_then(|v| v.as_str()).map(|s| s.as_str()),
        Some("kb.pdf")
    );
    assert_eq!(node.uuid, chunk_uuid("g1", "doc1", 2));
}

#[test]
fn map_hit_extracts_provenance() {
    let node = chunk_to_entity_node(&sample_chunk(), "g1", bits(&[0.0; 3]), utc_now());
    let hit = node_to_chunk_hit(node, Score { bits: 0.87_f64.to_bits() });
    assert_eq!(hit.text, "hello world");
    assert_eq!(f64::from_bits(hit.score.bits), 0.87);
    assert_eq!(hit.doc_id.as_deref(), Some("doc1"));
    assert_eq!(hit.chunk_index, Some(2));
    assert_eq!(hit.group_id, "g1");
}
