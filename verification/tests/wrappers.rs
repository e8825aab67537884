use blake2::digest::consts::U8;
use blake2::{Blake2b, Blake2b512, Digest};
use chronicle_core::document_rag::{
    asks_for_chunks, chunk_hits, chunk_text, chunk_texts, chunk_uuid, nodes_from_chunks,
    DocumentChunk,
};
use chronicle_core::collections::StringMap;
use chronicle_core::errors::ChronicleError;
use chronicle_core::helpers::normalize_string_exact;
use chronicle_core::json::{quote, to_prompt_json, Json};
use chronicle_core::pipeline::dedup_helpers::{
    has_high_entropy, hash_shingle, lsh_bands, minhash_signature, normalize_name_for_fuzzy, shingles,
};
use chronicle_core::score::Score;
use chronicle_core::sorting::stable_order;
use chronicle_core::time::{epoch, isoformat, parse_rfc3339, utc_now, Timestamp};
use chronicle_core::types::{EntityEdge, EntityNode};

fn s(text: &str) -> String {
    text.to_string()
}

fn chunk(doc: &str, index: usize, text: &str) -> DocumentChunk {
    DocumentChunk { doc_id: s(doc), chunk_index: index, text: s(text), metadata: StringMap::new() }
}

#[test]
fn shingles_are_hashed_by_blake2b_over_seed_and_text() {
    for (shingle, seed) in [("abc", 0u64), ("xyz", 31), ("a\u{e9}b", 7), ("", u64::MAX)] {
        let mut hasher = Blake2b::<U8>::new();
        hasher.update(format!("{seed}:{shingle}").as_bytes());
        let digest: [u8; 8] = hasher.finalize().into();
        assert_eq!(hash_shingle(shingle, seed), u64::from_be_bytes(digest));
    }
}

#[test]
fn a_signature_has_the_least_hashes() {
    let set = shingles("ada lovelace");
    let signature = minhash_signature(&set);
    assert_eq!(signature.len(), 32);
    for (seed, h) in signature.iter().enumerate() {
        let least =
            set.to_vec().iter().map(|g| hash_shingle(g, seed as u64)).min().unwrap();
        assert_eq!(*h, least);
    }
    let bands = lsh_bands(&signature);
    assert_eq!(bands.len(), 8);
    assert_eq!(bands[7], signature[28..].to_vec());
    assert!(minhash_signature(&shingles("")).is_empty());
}

#[test]
fn names_with_the_same_shingles_have_the_same_bands() {
    let (a, b) = (shingles("ada lovelace"), shingles("adal ovel ace"));
    assert_eq!(a.to_vec(), b.to_vec());
    assert_eq!(lsh_bands(&minhash_signature(&a)), lsh_bands(&minhash_signature(&b)));
}

#[test]
fn instants_are_ordered_by_seconds_and_then_by_nanoseconds() {
    let early = Timestamp::from_parts(-5, 7).unwrap();
    let late = Timestamp::from_parts(-5, 8).unwrap();
    assert!(early.is_before(&late));
    assert!(!late.is_before(&early));
    assert!(early.is_at_or_before(&early));
    assert!(!late.is_at_or_before(&early));
}

#[test]
fn texts_with_the_same_words_have_the_same_normal_form() {
    assert_eq!(normalize_string_exact("Ada\tLovelace "), normalize_string_exact("Ada Lovelace"));
}

#[test]
fn a_chunk_identifier_is_the_beginning_of_a_digest() {
    let mut hasher = Blake2b512::new();
    hasher.update(b"group");
    hasher.update([0x1f]);
    hasher.update("d\u{f6}c".as_bytes());
    hasher.update([0x1f]);
    hasher.update(258usize.to_le_bytes());
    let digest = hasher.finalize();
    let mut bytes = [0u8; 16];
    bytes.copy_from_slice(&digest[..16]);
    assert_eq!(chunk_uuid("group", "d\u{f6}c", 258), uuid::Uuid::from_bytes(bytes).to_string());
    assert_ne!(chunk_uuid("group", "d", 0), chunk_uuid("group", "d", 1));
}

#[test]
fn fresh_identifiers_are_random() {
    let a = EntityNode::new(s("A"), s("g"), epoch());
    let b = EntityEdge::new(s("x"), s("y"), s("R"), s("f"), s("g"));
    let parsed = uuid::Uuid::parse_str(&a.uuid).unwrap();
    assert_eq!(parsed.get_version_num(), 4);
    assert_eq!(parsed.to_string(), a.uuid);
    assert_ne!(a.uuid, b.uuid);
}

#[test]
fn instants_are_written_with_microseconds_where_there_are_any() {
    assert_eq!(isoformat(epoch()), "1970-01-01T00:00:00+00:00");
    let t = Timestamp::from_parts(1_745_971_200, 123_456_789).unwrap();
    assert_eq!(isoformat(t), "2025-04-30T00:00:00.123456+00:00");
    let t = Timestamp::from_parts(-1, 999).unwrap();
    assert_eq!(isoformat(t), "1969-12-31T23:59:59+00:00");
}

#[test]
fn instants_are_read_in_utc() {
    let t = parse_rfc3339("2025-04-30T02:00:00.5+02:00").unwrap();
    assert_eq!((t.secs(), t.nanos()), (1_745_971_200, 500_000_000));
    assert!(parse_rfc3339("2025-04-30").is_none());
    let leap = parse_rfc3339("2016-12-31T23:59:60Z").unwrap();
    assert_eq!(leap.nanos(), 1_000_000_000);
    assert_eq!(isoformat(leap), "2016-12-31T23:59:60.000000+00:00");
}

#[test]
fn only_instants_that_exist_are_made() {
    assert!(Timestamp::from_parts(0, 1_999_999_999).is_none());
    assert!(Timestamp::from_parts(59, 1_999_999_999).is_some());
    assert!(Timestamp::from_parts(59, 2_000_000_000).is_none());
    assert!(Timestamp::from_parts(-1, 1_500_000_000).is_some());
    assert!(Timestamp::from_parts(i64::MAX, 0).is_none());
    for (secs, nanos) in [(8_210_266_876_799i64, 0u32), (-8_334_601_228_800, 0)] {
        let t = Timestamp::from_parts(secs, nanos).unwrap();
        let outside = chrono::DateTime::<chrono::Utc>::from_timestamp(secs, nanos).unwrap();
        assert_eq!(outside.timestamp(), t.secs());
        assert!(!isoformat(t).is_empty());
    }
    assert!(Timestamp::from_parts(8_210_266_876_800, 0).is_none());
    assert!(chrono::DateTime::<chrono::Utc>::from_timestamp(8_210_266_876_800, 0).is_none());
}

#[test]
fn now_lies_between_two_readings_of_the_clock() {
    let before = chrono::Utc::now().timestamp();
    let now = utc_now();
    let after = chrono::Utc::now().timestamp();
    assert!(before <= now.secs() && now.secs() <= after);
}

#[test]
fn texts_are_lowercased_by_unicode() {
    assert_eq!(normalize_string_exact("  \u{c9}T\u{c9}\n2024 "), "\u{e9}t\u{e9} 2024");
    assert_eq!(normalize_name_for_fuzzy("O'Neil, \u{c9}va (CEO)"), "o'neil va ceo");
}

#[test]
fn strings_are_quoted_as_serde_json_quotes_them() {
    for text in [
        "plain",
        "\"quoted\" \\ slash / ",
        "\u{8}\u{c}\n\r\t\u{0}\u{1f}\u{7f}",
        "caf\u{e9} \u{1f600}",
        "",
    ] {
        assert_eq!(quote(text), serde_json::to_string(text).unwrap());
    }
}

#[test]
fn values_are_written_on_one_line() {
    let value = Json::Object(vec![
        (s("a"), Json::Array(vec![Json::Null, Json::Bool(true), Json::Int(-3)])),
        (s("b"), Json::Float { bits: 0.5f64.to_bits(), text: s("0.5") }),
        (s("c"), Json::Object(Vec::new())),
    ]);
    assert_eq!(to_prompt_json(&value), r#"{"a": [null, true, -3], "b": 0.5, "c": {}}"#);
    assert!(Json::Array(Vec::new()).is_falsy());
    assert!(!Json::Array(vec![Json::Null]).is_falsy());
    assert!(Json::Int(0).is_falsy());
    assert!(Json::Str(s("")).is_falsy());
    assert_eq!(Json::Int(7).as_u64(), Some(7));
    assert_eq!(Json::Int(-7).as_u64(), None);
    assert_eq!(Json::Int(-7).as_i64(), Some(-7));
}

// The entropy in bits, as it is defined.
fn entropy(name: &str) -> f64 {
    let chars: Vec<char> = name.chars().filter(|c| *c != ' ').collect();
    let total = chars.len() as f64;
    let mut sum = 0.0;
    let mut seen: Vec<char> = Vec::new();
    for c in &chars {
        if !seen.contains(c) {
            seen.push(*c);
            let p = chars.iter().filter(|d| *d == c).count() as f64 / total;
            sum -= p * p.log2();
        }
    }
    sum
}

#[test]
fn specific_names_have_high_entropy() {
    for name in [
        "ada lovelace",
        "aaaaaaaa",
        "abababab",
        "aabbccdd",
        "aab bcc",
        "international business machines",
        "aaaaabbbc",
        "aaaabbcd",
        "abcabc",
        "mississippi",
    ] {
        assert_eq!(has_high_entropy(name), entropy(name) >= 1.5, "{name} {}", entropy(name));
    }
    assert!(!has_high_entropy("bob"));
    assert!(has_high_entropy("a bcd"));
    assert!(!has_high_entropy(""));
}

#[test]
fn sorting_is_stable() {
    assert_eq!(stable_order(&vec![3, 1, 3, -5, 1]), vec![3, 1, 4, 0, 2]);
    assert!(stable_order(&Vec::new()).is_empty());
}

#[test]
fn chunks_cover_the_text_and_fit() {
    let text = "alpha beta gamma delta epsilon";
    let chunks = chunk_text(text, 12, 3);
    assert!(chunks.iter().all(|c| !c.is_empty() && c.chars().count() <= 12));
    for word in text.split(' ') {
        assert!(chunks.iter().any(|c| c.contains(word)), "{word}");
    }
    assert!(chunk_text("   ", 12, 3).is_empty());
    assert!(chunk_text("text", 0, 0).is_empty());
    assert_eq!(chunk_text(" text ", 10, 3), vec![s("text")]);
    assert_eq!(chunk_text("abcdefgh", 3, 9), vec![s("abc"), s("bcd"), s("cde"), s("def"), s("efg"), s("fgh")]);
}

#[test]
fn every_chunk_needs_an_embedding() {
    let chunks = vec![chunk("d", 0, "one"), chunk("d", 1, "two")];
    assert_eq!(chunk_texts(&chunks), vec![s("one"), s("two")]);
    match nodes_from_chunks(&chunks, &vec![vec![1]], "group", epoch()) {
        Err(ChronicleError::InvalidInput(m)) => {
            assert_eq!(m, "embedder returned 1 vectors for 2 chunks");
        }
        other => panic!("{other:?}"),
    }
    let nodes = nodes_from_chunks(&chunks, &vec![vec![1], vec![2]], "group", epoch()).unwrap();
    assert_eq!(nodes[1].name, "two");
    assert_eq!(nodes[1].uuid, chunk_uuid("group", "d", 1));
    assert_eq!(nodes[1].name_embedding, Some(vec![2]));
}

#[test]
fn only_chunks_are_hits() {
    let chunks = vec![chunk("d", 4, "one")];
    let mut found = nodes_from_chunks(&chunks, &vec![vec![1]], "group", epoch()).unwrap();
    found.insert(0, EntityNode::new(s("Ada"), s("group"), epoch()));
    let scores = vec![Score { bits: 1.0f64.to_bits() }, Score { bits: 0.5f64.to_bits() }];
    let hits = chunk_hits(found, &scores);
    assert_eq!(hits.len(), 1);
    assert_eq!(hits[0].text, "one");
    assert_eq!(hits[0].doc_id, Some(s("d")));
    assert_eq!(hits[0].chunk_index, Some(4));
    assert_eq!(f64::from_bits(hits[0].score.bits), 0.5);
    assert!(asks_for_chunks("who", 1));
    assert!(!asks_for_chunks(" ", 1));
    assert!(!asks_for_chunks("who", 0));
}
