//! The prompts, word for word.
use chronicle_core::json::Json;
use chronicle_core::llm::Role;
use chronicle_core::prompts::dedupe_edges::{resolve_edge, ResolveEdgeContext};
use chronicle_core::prompts::dedupe_nodes::{nodes, NodesContext};
use chronicle_core::prompts::extract_edges::{
    edge, extract_timestamps, EdgeContext, ExtractTimestampsContext,
};
use chronicle_core::prompts::helpers::DO_NOT_ESCAPE_UNICODE;
use chronicle_core::prompts::models::default_episode_indices;
use chronicle_core::prompts::summarize_nodes::{
    summarize_context, summarize_pair, summary_description, SummarizeContext,
    SummarizePairContext, SummaryDescriptionContext,
};
use chronicle_core::prompts::summarize_sagas::{summarize_saga, SummarizeSagaContext};

fn text(s: &str) -> Json {
    Json::Str(s.to_string())
}

fn object(members: Vec<(&str, Json)>) -> Json {
    Json::Object(members.into_iter().map(|(k, v)| (k.to_string(), v)).collect())
}

#[test]
fn resolve_edge_renders_verbatim() {
    let ctx = ResolveEdgeContext {
        existing_edges: "idx=0, \"Alice joined Acme Corp in 2020\"",
        edge_invalidation_candidates: "idx=1, \"Alice works at Acme Corp\"",
        new_edge: "Alice joined Acme Corp in 2020",
    };
    let msgs = resolve_edge(&ctx);
    assert_eq!(msgs.len(), 2);
    assert_eq!(msgs[0].role, Role::System);
    assert_eq!(msgs[1].role, Role::User);
    assert!(msgs[0].content.ends_with(DO_NOT_ESCAPE_UNICODE));
    assert!(
        msgs[0]
            .content
            .contains("You are a fact deduplication assistant.")
    );
    let u = &msgs[1].content;
    assert!(u.contains(
        "NEVER mark facts as duplicates if they have key differences, particularly around numeric values, dates, or key qualifiers."
    ));
    assert!(u.contains("1. DUPLICATE DETECTION:"));
    assert!(u.contains(
        "You will receive TWO lists of facts with CONTINUOUS idx numbering across both lists."
    ));
    assert!(u.contains("idx=0, \"Alice joined Acme Corp in 2020\""));
    assert!(u.contains("Alice joined Acme Corp in 2020"));
}

#[test]
fn nodes_renders_verbatim() {
    let prev = Json::Array(vec![text("Sam: hi")]);
    let extracted = Json::Array(vec![
        object(vec![("id", Json::Int(0)), ("name", text("Sam"))]),
        object(vec![("id", Json::Int(1)), ("name", text("NYC"))]),
    ]);
    let existing = Json::Array(vec![object(vec![
        ("candidate_id", Json::Int(0)),
        ("name", text("Sam")),
    ])]);
    let ctx = NodesContext {
        previous_episodes: &prev,
        episode_content: "Sam visited NYC.",
        extracted_nodes: &extracted,
        existing_nodes: &existing,
    };
    let msgs = nodes(&ctx);
    assert_eq!(msgs.len(), 2);
    assert_eq!(msgs[0].role, Role::System);
    assert_eq!(msgs[1].role, Role::User);
    assert!(msgs[0].content.ends_with(DO_NOT_ESCAPE_UNICODE));
    assert!(
        msgs[0]
            .content
            .contains("You are an entity deduplication assistant.")
    );
    let u = &msgs[1].content;
    assert!(u.contains("Each of the above ENTITIES was extracted from the CURRENT MESSAGE."));
    assert!(u.contains(
        "Entities should only be considered duplicates if they refer to the *same real-world object or concept*."
    ));
    assert!(u.contains("- They are related but distinct."));
    assert!(u.contains("ENTITIES contains 2 entities with IDs 0 through 1."));
    assert!(u.contains("Your response MUST include EXACTLY 2 resolutions with IDs 0 through 1. Do not skip or add IDs."));
    assert!(u.contains(r#"EXISTING ENTITIES: [{"candidate_id": 0, "name": "Sam", "entity_types": ["Person"], "summary": "Sam enjoys hiking and photography"}]"#));
    assert!(u.contains("Sam visited NYC."));
}

#[test]
fn edge_renders_verbatim_with_fact_types() {
    let prev = Json::Array(vec![object(vec![
        ("content", text("Alice: hi")),
        ("timestamp", text("2025-04-29T00:00:00+00:00")),
    ])]);
    let nodes = Json::Array(vec![
        object(vec![("name", text("Alice"))]),
        object(vec![("name", text("Acme Corp"))]),
    ]);
    let edge_types = Json::Array(vec![object(vec![("fact_type_name", text("WORKS_AT"))])]);
    let ctx = EdgeContext {
        previous_episodes: &prev,
        episode_content: "Alice works at Acme Corp.",
        nodes: &nodes,
        reference_time: "2025-04-30T00:00:00Z",
        edge_types: Some(&edge_types),
        custom_extraction_instructions: "",
    };
    let msgs = edge(&ctx);
    assert_eq!(msgs.len(), 2);
    assert_eq!(msgs[0].role, Role::System);
    assert_eq!(msgs[1].role, Role::User);
    assert!(msgs[0].content.ends_with(DO_NOT_ESCAPE_UNICODE));
    assert!(
        msgs[0]
            .content
            .contains("You are an expert fact extractor that extracts fact triples from text.")
    );
    let u = &msgs[1].content;
    assert!(u.contains("# TASK\nExtract all factual relationships between the given ENTITIES based on the CURRENT MESSAGE."));
    assert!(u.contains("# EXTRACTION RULES"));
    assert!(u.contains(
        "2. Each fact must involve two **distinct** entities — `source_entity_name` and `target_entity_name` NEVER refer to the same entity."
    ));
    assert!(u.contains("Alice works at Acme Corp."));
    assert!(u.contains("<FACT_TYPES>"));
    assert!(u.ends_with("If only a year is mentioned, use January 1st at 00:00:00.\n        "));
}

#[test]
fn edge_omits_fact_types_when_absent() {
    let prev = Json::Array(vec![]);
    let nodes = Json::Array(vec![object(vec![("name", text("Alice"))])]);
    let ctx = EdgeContext {
        previous_episodes: &prev,
        episode_content: "Alice exists.",
        nodes: &nodes,
        reference_time: "2025-04-30T00:00:00Z",
        edge_types: None,
        custom_extraction_instructions: "",
    };
    let msgs = edge(&ctx);
    let u = &msgs[1].content;
    assert!(!u.contains("<FACT_TYPES>"));
    assert!(u.contains("</REFERENCE_TIME>\n\n# TASK"));
}

#[test]
fn edge_omits_fact_types_when_empty_list() {
    let prev = Json::Array(vec![]);
    let nodes = Json::Array(vec![object(vec![("name", text("Alice"))])]);
    let empty = Json::Array(vec![]);
    let ctx = EdgeContext {
        previous_episodes: &prev,
        episode_content: "Alice exists.",
        nodes: &nodes,
        reference_time: "2025-04-30T00:00:00Z",
        edge_types: Some(&empty),
        custom_extraction_instructions: "",
    };
    let msgs = edge(&ctx);
    assert!(!msgs[1].content.contains("<FACT_TYPES>"));
}

#[test]
fn zero_number_suppresses_fact_types_block() {
    let prev = Json::Array(vec![]);
    let nodes = Json::Array(vec![object(vec![("name", text("Alice"))])]);
    let zero = Json::Int(0);
    let ctx = EdgeContext {
        previous_episodes: &prev,
        episode_content: "Alice exists.",
        nodes: &nodes,
        reference_time: "2025-04-30T00:00:00Z",
        edge_types: Some(&zero),
        custom_extraction_instructions: "",
    };
    let msgs = edge(&ctx);
    assert!(!msgs[1].content.contains("<FACT_TYPES>"));
}

#[test]
fn nonzero_number_keeps_fact_types_block() {
    let prev = Json::Array(vec![]);
    let nodes = Json::Array(vec![object(vec![("name", text("Alice"))])]);
    let one = Json::Int(1);
    let ctx = EdgeContext {
        previous_episodes: &prev,
        episode_content: "Alice exists.",
        nodes: &nodes,
        reference_time: "2025-04-30T00:00:00Z",
        edge_types: Some(&one),
        custom_extraction_instructions: "",
    };
    let msgs = edge(&ctx);
    assert!(msgs[1].content.contains("<FACT_TYPES>"));
}

#[test]
fn extract_timestamps_renders_verbatim() {
    let ctx = ExtractTimestampsContext {
        fact: "Alice joined Acme in 2020.",
        reference_time: "2025-04-30T00:00:00Z",
    };
    let msgs = extract_timestamps(&ctx);
    assert_eq!(msgs.len(), 2);
    assert_eq!(msgs[0].role, Role::System);
    assert_eq!(msgs[1].role, Role::User);
    assert!(msgs[0].content.ends_with(DO_NOT_ESCAPE_UNICODE));
    assert!(
        msgs[0]
            .content
            .contains("You extract temporal bounds from facts. NEVER hallucinate dates.")
    );
    let u = &msgs[1].content;
    assert!(u.starts_with(
        "Given a FACT and its REFERENCE TIME, determine when the fact became true"
    ));
    assert!(u.contains("- Use ISO 8601 with Z suffix (e.g., 2025-04-30T00:00:00Z)."));
    assert!(u.contains("- Do NOT hallucinate or infer dates from unrelated events."));
    assert!(u.contains("Alice joined Acme in 2020."));
}

#[test]
fn summarize_context_renders_verbatim() {
    let prev = Json::Array(vec![object(vec![
        ("content", text("Mina: hi")),
        ("timestamp", text("2025-04-29T00:00:00+00:00")),
    ])]);
    let episode = text("Jordan presented a ceramics workshop.");
    let attributes = object(vec![("role", text("instructor"))]);
    let ctx = SummarizeContext {
        previous_episodes: &prev,
        episode_content: &episode,
        node_name: "Jordan Lee",
        node_summary: "Jordan Lee works at Belmont Arts Center.",
        attributes: &attributes,
    };
    let msgs = summarize_context(&ctx);
    assert_eq!(msgs.len(), 2);
    assert_eq!(msgs[0].role, Role::System);
    assert_eq!(msgs[1].role, Role::User);
    assert!(msgs[0].content.ends_with(DO_NOT_ESCAPE_UNICODE));
    assert!(msgs[0].content.contains(
        "You are a helpful assistant that generates detailed, information-dense summaries and attributes from provided text."
    ));
    let u = &msgs[1].content;
    assert!(u.contains(
        "Given the MESSAGES and the ENTITY name, create a summary for the ENTITY. Your summary must only use"
    ));
    assert!(u.contains(
        "If the value of the entity property cannot be found in the current context, set the value of the property to the Python value None."
    ));
    assert!(u.contains(
        "1. Output only factual content. Never explain what you're doing, why, or mention limitations or constraints."
    ));
    assert!(u.contains("STATE FACTS DIRECTLY IN UNDER 1000 CHARACTERS."));
    assert!(u.contains("Jordan Lee"));
    assert!(u.contains("Jordan Lee works at Belmont Arts Center."));
}

#[test]
fn summarize_pair_renders_verbatim() {
    let ctx = SummarizePairContext {
        left_summary: "Acme makes ceramics.",
        right_summary: "Acme is based in Belmont.",
    };
    let msgs = summarize_pair(&ctx);
    assert_eq!(msgs.len(), 2);
    assert_eq!(msgs[0].role, Role::System);
    assert_eq!(msgs[1].role, Role::User);
    assert!(msgs[0].content.ends_with(DO_NOT_ESCAPE_UNICODE));
    assert!(msgs[0].content.contains(
        "You are a helpful assistant that combines summaries into a single dense factual summary."
    ));
    let u = &msgs[1].content;
    assert!(u.contains(
        "Synthesize the information from the following two summaries into a single information-dense summary."
    ));
    assert!(u.contains("SUMMARIES MUST BE LESS THAN 1000 CHARACTERS."));
    assert!(u.contains(
        r#"[{"summary": "Acme makes ceramics."}, {"summary": "Acme is based in Belmont."}]"#
    ));
}

#[test]
fn summary_description_renders_verbatim() {
    let ctx = SummaryDescriptionContext {
        summary: "Acme makes ceramics in Belmont.",
    };
    let msgs = summary_description(&ctx);
    assert_eq!(msgs.len(), 2);
    assert_eq!(msgs[0].role, Role::System);
    assert_eq!(msgs[1].role, Role::User);
    assert!(msgs[0].content.ends_with(DO_NOT_ESCAPE_UNICODE));
    assert!(msgs[0].content.contains(
        "You are a helpful assistant that describes provided contents in a single sentence."
    ));
    let u = &msgs[1].content;
    assert!(u.contains(
        "Create a short one sentence description of the summary that explains what kind of information is summarized."
    ));
    assert!(u.contains("Summaries must be under 1000 characters."));
    assert!(u.contains(r#""Acme makes ceramics in Belmont.""#));
}

#[test]
fn summarize_saga_renders_verbatim_without_existing_summary() {
    let episodes = vec![
        "Jordan: moving deploy to March 15.".to_string(),
        "Priya: I'll update the timeline.".to_string(),
    ];
    let ctx = SummarizeSagaContext {
        saga_name: "deployment-planning",
        existing_summary: "",
        episodes: &episodes,
    };
    let msgs = summarize_saga(&ctx);
    assert_eq!(msgs.len(), 2);
    assert_eq!(msgs[0].role, Role::System);
    assert_eq!(msgs[1].role, Role::User);

    assert!(msgs[0].content.ends_with(DO_NOT_ESCAPE_UNICODE));
    assert!(msgs[0].content.contains(
        "You extract durable knowledge from message threads. Output a factual knowledge brief"
    ));
    assert!(msgs[0].content.contains("Stay under 1000 characters."));

    let u = &msgs[1].content;
    assert!(u.starts_with(
        "NEVER use meta-language verbs: \"mentioned\", \"discussed\", \"noted\", \"stated\","
    ));
    assert!(
        u.contains("produce a factual knowledge brief for the topic \"deployment-planning\".")
    );
    assert!(
        u.contains("Jordan: moving deploy to March 15.\n---\nPriya: I'll update the timeline.")
    );
    assert!(!u.contains("<EXISTING_KNOWLEDGE>"));
    assert!(u.contains("Siam Kitchen is a Thai restaurant on Elm Street"));
    assert!(
        u.contains("Sam prefers morning work and reports higher productivity before noon.")
    );
}

#[test]
fn summarize_saga_injects_existing_summary_branch() {
    let episodes = vec!["Sam: new fact today.".to_string()];
    let ctx = SummarizeSagaContext {
        saga_name: "support",
        existing_summary: "Sam owns the deployment.",
        episodes: &episodes,
    };
    let msgs = summarize_saga(&ctx);
    let u = &msgs[1].content;
    assert!(
        u.contains("<EXISTING_KNOWLEDGE>\nSam owns the deployment.\n</EXISTING_KNOWLEDGE>")
    );
    assert!(u.contains(
        "The EXISTING_KNOWLEDGE contains previously extracted facts. Merge any new facts from MESSAGES into it."
    ));
    assert!(u.contains(
        "If MESSAGES add no new durable facts, return the existing knowledge unchanged."
    ));
}

#[test]
fn summarize_saga_empty_episodes_renders_placeholder() {
    let ctx = SummarizeSagaContext {
        saga_name: "empty",
        existing_summary: "",
        episodes: &[],
    };
    let msgs = summarize_saga(&ctx);
    assert!(
        msgs[1]
            .content
            .contains("<MESSAGES>\n(no messages)\n</MESSAGES>")
    );
}

#[test]
fn extracted_entity_default_episode_indices() {
    assert_eq!(default_episode_indices(), vec![0]);
}
