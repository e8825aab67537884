use chronicle_core::collections::{StringMap, StringSet};
use chronicle_core::json::Json;
use chronicle_core::llm::retry::{after_failure, RetryDecision};
use chronicle_core::llm::{LlmError, Message};
use chronicle_core::pipeline::extraction::{
    extraction_context, extraction_request, ExtractionContext,
};
use chronicle_core::pipeline::uuid_map::{build_directed_uuid_map, compress_uuid_map};
use chronicle_core::text::{collapse_white, is_blank, replace_char, split_words, str_less, trimmed};
use chronicle_core::time::Timestamp;
use chronicle_core::types::{EpisodeType, EpisodicNode};

fn s(text: &str) -> String {
    text.to_string()
}

fn strings(texts: &[&str]) -> Vec<String> {
    texts.iter().map(|t| s(t)).collect()
}

fn at(secs: i64) -> Timestamp {
    Timestamp::from_parts(secs, 0).unwrap()
}

fn episode(uuid: &str, content: &str, secs: i64) -> EpisodicNode {
    let mut e = EpisodicNode::new(
        s("name"),
        s("group"),
        EpisodeType::Message,
        s("chat"),
        s(content),
        at(0),
        at(secs),
    );
    e.uuid = s(uuid);
    e
}

fn pair(a: &str, b: &str) -> (String, String) {
    (s(a), s(b))
}

#[test]
fn failures_that_may_pass_are_waited_for() {
    let caps: Vec<RetryDecision> = (1..5).map(|n| after_failure(n, &LlmError::RateLimit)).collect();
    assert_eq!(
        caps,
        vec![
            RetryDecision::WaitUpTo { cap_secs: 10 },
            RetryDecision::WaitUpTo { cap_secs: 20 },
            RetryDecision::WaitUpTo { cap_secs: 40 },
            RetryDecision::GiveUp,
        ]
    );
    let server = LlmError::Server { status: 503, message: s("busy") };
    assert_eq!(after_failure(1, &server), RetryDecision::WaitUpTo { cap_secs: 10 });
    let invalid = LlmError::InvalidJson(serde_json::from_str::<bool>("?").unwrap_err());
    assert_eq!(after_failure(2, &invalid), RetryDecision::WaitUpTo { cap_secs: 20 });
}

#[test]
fn failures_that_last_are_reported_at_once() {
    for error in [
        LlmError::Refusal(s("no")),
        LlmError::EmptyResponse,
        LlmError::Transport(s("down")),
    ] {
        assert_eq!(after_failure(1, &error), RetryDecision::GiveUp);
    }
}

#[test]
fn the_context_of_an_extraction_depends_on_the_source() {
    let mut e = episode("p", "Ada spoke.", 60);
    let previous = [episode("q", "Hi.", 0)];
    match extraction_context(&e, &previous, None, Some("Be brief.")) {
        ExtractionContext::Message {
            entity_types,
            previous_episodes,
            episode_content,
            custom_extraction_instructions,
        } => {
            assert!(matches!(entity_types, Json::Array(types) if types.len() == 1));
            assert!(matches!(previous_episodes, Json::Array(items) if items.len() == 1));
            assert_eq!(episode_content, "Ada spoke.");
            assert_eq!(custom_extraction_instructions, "Be brief.");
        }
        other => panic!("{other:?}"),
    }
    e.source = EpisodeType::Json;
    match extraction_context(&e, &previous, None, None) {
        ExtractionContext::Json { source_description, custom_extraction_instructions, .. } => {
            assert_eq!(source_description, "chat");
            assert_eq!(custom_extraction_instructions, "");
        }
        other => panic!("{other:?}"),
    }
    e.source = EpisodeType::Text;
    assert!(matches!(
        extraction_context(&e, &previous, None, None),
        ExtractionContext::Text { .. }
    ));
}

#[test]
fn extractions_are_named_by_their_source() {
    for (source, name) in [
        (EpisodeType::Message, "extract_nodes.extract_message"),
        (EpisodeType::Json, "extract_nodes.extract_json"),
        (EpisodeType::Text, "extract_nodes.extract_text"),
    ] {
        let request = extraction_request(source, vec![Message::user(s("x"))]);
        assert_eq!(request.prompt_name, Some(s(name)));
        assert_eq!(request.messages[0].content, "x");
    }
}

#[test]
fn directed_aliases_lead_to_their_last_target() {
    let m = build_directed_uuid_map(&[pair("a", "b"), pair("b", "c"), pair("x", "y")]);
    assert_eq!(m.get("a"), Some(&s("c")));
    assert_eq!(m.get("b"), Some(&s("c")));
    assert_eq!(m.get("c"), Some(&s("c")));
    assert_eq!(m.get("x"), Some(&s("y")));
    assert_eq!(m.get("unknown"), None);
    let m = build_directed_uuid_map(&[pair("a", "b"), pair("b", "a")]);
    assert_eq!(m.get("a"), m.get("b"));
}

#[test]
fn undirected_aliases_lead_to_the_smallest_whatever_their_order() {
    let pairs = [pair("d", "b"), pair("c", "d"), pair("z", "y")];
    let turned = [pair("y", "z"), pair("d", "c"), pair("b", "d")];
    for pairs in [&pairs, &turned] {
        let m = compress_uuid_map(pairs);
        for key in ["b", "c", "d"] {
            assert_eq!(m.get(key), Some(&s("b")));
        }
        assert_eq!(m.get("z"), Some(&s("y")));
        assert_eq!(m.len(), 5);
    }
}

#[test]
fn maps_and_sets_are_ordered_by_key() {
    let mut m: StringMap<u64> = StringMap::new();
    for (k, v) in [("b", 1), ("a", 2), ("c", 3), ("a", 4)] {
        m.insert(s(k), v);
    }
    assert_eq!(m.len(), 3);
    assert_eq!((m.key_at(0).as_str(), *m.value_at(0)), ("a", 4));
    assert_eq!(m.key_at(2), "c");
    assert_eq!(m.remove("b"), Some(1));
    assert_eq!(m.remove("b"), None);
    assert!(!m.contains_key("b"));
    let mut set = StringSet::new();
    assert!(set.insert(s("y")));
    assert!(set.insert(s("x")));
    assert!(!set.insert(s("y")));
    assert_eq!(set.to_vec(), strings(&["x", "y"]));
    let mut other = StringSet::new();
    assert!(other.is_empty());
    other.insert(s("y"));
    assert_eq!(set.shared(&other), 1);
}

#[test]
fn texts_are_cut_at_white_space() {
    assert_eq!(trimmed("\u{a0} a b \t"), "a b");
    assert_eq!(split_words(" a\n\tb\u{2003}c "), strings(&["a", "b", "c"]));
    assert_eq!(collapse_white("  a \n b "), "a b");
    assert!(is_blank("\u{3000}\n"));
    assert!(!is_blank("."));
    assert_eq!(replace_char("a\nb\n", '\n', " "), "a b ");
    assert!(str_less("a", "ab"));
    assert!(str_less("Z", "a"));
    assert!(!str_less("b", "ab"));
}

fn server_error(status: u16) -> LlmError {
    LlmError::Server { status, message: s("failed") }
}

#[test]
fn a_server_error_is_tried_again_in_the_500s_only() {
    for status in [500, 599] {
        assert!(server_error(status).is_retryable());
        assert_eq!(after_failure(1, &server_error(status)), RetryDecision::WaitUpTo { cap_secs: 10 });
    }
    for status in [404, 499, 600] {
        assert!(!server_error(status).is_retryable());
        assert_eq!(after_failure(1, &server_error(status)), RetryDecision::GiveUp);
    }
}

#[test]
fn collapsing_happens_once() {
    let once = collapse_white("\t one  two\u{a0}\u{3000}three\n");
    assert_eq!(once, "one two three");
    assert_eq!(trimmed(&once), once);
    assert_eq!(collapse_white(&once), once);
    assert_eq!(split_words(&once), split_words("\t one  two\u{a0}\u{3000}three\n"));
}
