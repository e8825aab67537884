use chronicle_core::pipeline::saga::{
    apply_saga_summary, extend_saga, link_episode, link_episodes, saga_or_fresh, saga_start,
    saga_summary_request, sort_by_time, truncate_bytes,
};
use chronicle_core::time::Timestamp;
use chronicle_core::types::{EpisodeType, EpisodicNode, SagaNode};

fn s(text: &str) -> String {
    text.to_string()
}

fn strings(texts: &[&str]) -> Vec<String> {
    texts.iter().map(|t| s(t)).collect()
}

fn at(secs: i64) -> Timestamp {
    Timestamp::from_parts(secs, 0).unwrap()
}

fn episode(uuid: &str, content: &str, secs: i64) -> EpisodicNode {
    let mut e = EpisodicNode::new(
        s("name"),
        s("group"),
        EpisodeType::Message,
        s("chat"),
        s(content),
        at(0),
        at(secs),
    );
    e.uuid = s(uuid);
    e
}

fn saga() -> SagaNode {
    SagaNode::new(s("trip"), s("group"), at(0))
}

#[test]
fn an_episode_is_linked_to_its_saga_and_to_the_one_before() {
    let link = link_episode("saga", &Some(s("before")), "now", "group", at(9));
    assert_eq!(link.has.source_node_uuid, "saga");
    assert_eq!(link.has.target_node_uuid, "now");
    assert_eq!(link.has.created_at, at(9));
    let next = link.next.unwrap();
    assert_eq!(next.source_node_uuid, "before");
    assert_eq!(next.target_node_uuid, "now");
    assert_eq!(next.group_id, "group");
    assert!(link_episode("saga", &None, "now", "group", at(9)).next.is_none());
}

#[test]
fn episodes_are_threaded_one_after_the_other() {
    let episodes = vec![episode("p", "x", 1), episode("q", "y", 2)];
    let links = link_episodes("saga", None, &episodes, "group", at(9));
    assert!(links[0].next.is_none());
    assert_eq!(links[1].next.as_ref().unwrap().source_node_uuid, "p");
    let links = link_episodes("saga", Some(s("o")), &episodes, "group", at(9));
    assert_eq!(links[0].next.as_ref().unwrap().source_node_uuid, "o");
}

#[test]
fn episodes_are_sorted_by_time_and_keep_their_order_at_the_same_time() {
    let mut late = episode("c", "z", 5);
    late.valid_at = Timestamp::from_parts(5, 1).unwrap();
    let sorted = sort_by_time(&vec![
        late,
        episode("a", "x", 5),
        episode("early", "w", -3),
        episode("b", "y", 5),
    ]);
    let uuids: Vec<&str> = sorted.iter().map(|e| e.uuid.as_str()).collect();
    assert_eq!(uuids, vec!["early", "a", "b", "c"]);
}

#[test]
fn a_saga_begins_with_its_earliest_episode() {
    let episodes = vec![episode("a", "x", 5), episode("b", "y", 3)];
    assert_eq!(saga_start(&episodes, at(9)), at(3));
    assert_eq!(saga_start(&Vec::new(), at(9)), at(9));
}

#[test]
fn a_saga_keeps_its_first_episode() {
    let once = extend_saga(saga(), "a", "b");
    assert_eq!(once.first_episode_uuid, Some(s("a")));
    assert_eq!(once.last_episode_uuid, Some(s("b")));
    let twice = extend_saga(once, "c", "d");
    assert_eq!(twice.first_episode_uuid, Some(s("a")));
    assert_eq!(twice.last_episode_uuid, Some(s("d")));
}

#[test]
fn a_summary_is_asked_for_where_there_are_new_episodes() {
    let mut g = saga();
    g.summary = s("They left.");
    assert!(saga_summary_request(&g, &Vec::new()).is_none());
    let request = saga_summary_request(&g, &vec![(s("They arrived."), at(1)), (s("They ate."), at(2))])
        .unwrap();
    assert_eq!(request.prompt_name, Some(s("summarize_sagas.summarize_saga")));
    let text = &request.messages[1].content;
    assert!(text.contains("They left."));
    assert!(text.contains("They arrived."));
    assert!(text.contains("They ate."));
}

#[test]
fn a_summary_is_cut_at_a_character_and_its_mark_goes_forward() {
    let mut g = saga();
    g.last_summarized_episode_valid_at = Some(at(50));
    let g = apply_saga_summary(g, "short", &vec![(s("x"), at(20)), (s("y"), at(40))], at(90));
    assert_eq!(g.summary, "short");
    assert_eq!(g.last_summarized_at, Some(at(90)));
    assert_eq!(g.last_summarized_episode_valid_at, Some(at(50)));
    let g = apply_saga_summary(g, "short", &vec![(s("x"), at(70)), (s("y"), at(60))], at(95));
    assert_eq!(g.last_summarized_episode_valid_at, Some(at(70)));

    assert_eq!(truncate_bytes("abc", 3), "abc");
    assert_eq!(truncate_bytes("abc", 2), "ab");
    assert_eq!(truncate_bytes("a\u{e9}b", 2), "a");
    assert_eq!(truncate_bytes("a\u{e9}b", 3), "a\u{e9}");
    assert_eq!(truncate_bytes("\u{1f600}", 3), "");
    let long = "\u{20ac}".repeat(400);
    assert_eq!(apply_saga_summary(saga(), &long, &Vec::new(), at(1)).summary.len(), 999);
}

#[test]
fn a_stored_saga_is_taken_and_a_missing_one_is_fresh() {
    let stored = extend_saga(saga(), "a", "b");
    let uuid = stored.uuid.clone();
    let found = saga_or_fresh(Some(stored), "other", "elsewhere", at(7));
    assert_eq!(found.uuid, uuid);
    assert_eq!(found.name, "trip");
    assert_eq!(found.group_id, "group");
    assert_eq!(found.created_at, at(0));
    assert_eq!(found.first_episode_uuid, Some(s("a")));
    assert_eq!(found.last_episode_uuid, Some(s("b")));
    let fresh = saga_or_fresh(None, "trip", "group", at(7));
    assert_ne!(fresh.uuid, uuid);
    assert_eq!(fresh.uuid.len(), 36);
    assert_eq!(fresh.name, "trip");
    assert_eq!(fresh.group_id, "group");
    assert_eq!(fresh.created_at, at(7));
    assert_eq!(fresh.summary, "");
    assert!(fresh.first_episode_uuid.is_none());
    assert!(fresh.last_episode_uuid.is_none());
    assert!(fresh.last_summarized_at.is_none());
}
