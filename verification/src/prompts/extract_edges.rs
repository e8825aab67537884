//! The prompts that extract facts and their dates.
use crate::json::{self, to_prompt_json, Json, JsonView};
use crate::llm::{Message, MessageView};
use crate::llm::message::{self, make_prompt};
use crate::prompts::helpers::DO_NOT_ESCAPE_UNICODE;
use crate::text::owned;
use vstd::prelude::*;

verus! {

pub const EDGE_SYSTEM: &'static str = "You are an expert fact extractor that extracts fact triples from text. 1. Extracted fact triples should also be extracted with relevant date information. 2. The CURRENT_MESSAGE may contain multiple episodes, each with its own timestamp. Use each episode's timestamp to resolve temporal references within that episode. REFERENCE_TIME is a fallback for when no per-episode timestamp is available.";

pub const EDGE_BEFORE_PREVIOUS_EPISODES: &'static str = r#"
<PREVIOUS_MESSAGES>
"#;

pub const EDGE_BEFORE_EPISODE_CONTENT: &'static str = r#"
</PREVIOUS_MESSAGES>

<CURRENT_MESSAGE>
"#;

pub const EDGE_BEFORE_NODES: &'static str = r#"
</CURRENT_MESSAGE>

<ENTITIES>
"#;

pub const EDGE_BEFORE_REFERENCE_TIME: &'static str = r#"
</ENTITIES>

<REFERENCE_TIME>
"#;

pub const EDGE_BEFORE_EDGE_TYPES_SECTION: &'static str = r#"  # ISO 8601 (UTC); used to resolve relative time mentions
</REFERENCE_TIME>
"#;

pub const EDGE_BEFORE_CUSTOM_EXTRACTION_INSTRUCTIONS: &'static str = r#"
# TASK
Extract all factual relationships between the given ENTITIES based on the CURRENT MESSAGE.
Only extract facts that:
- involve two DISTINCT ENTITIES from the ENTITIES list,
- are clearly stated or unambiguously implied in the CURRENT MESSAGE,
    and can be represented as edges in a knowledge graph.
- Facts should include entity names rather than pronouns whenever possible.

You may use information from the PREVIOUS MESSAGES only to disambiguate references or support continuity.


"#;

pub const EDGE_END: &'static str = r#"

# EXTRACTION RULES

1. **Entity Name Validation**: `source_entity_name` and `target_entity_name` must use only the `name` values from the ENTITIES list provided above.
   - **CRITICAL**: Using names not in the list will cause the edge to be rejected
2. Each fact must involve two **distinct** entities — `source_entity_name` and `target_entity_name` NEVER refer to the same entity.
3. Prefer facts that involve two distinct entities from the ENTITIES list. When a sentence describes a specific, concrete detail about a single entity (a brand name, a specific item, a physical description, a quantity, a location, a named activity), do NOT drop it. Instead, look for a second entity in the ENTITIES list that the detail relates to and form a proper triple (e.g., Entity -> OWNS -> item-entity, Entity -> LIVES_IN -> place-entity, Entity -> HAS_ATTRIBUTE -> detail-entity). Only skip the fact when no second entity in the ENTITIES list can anchor the detail.
   - BAD: "Alice feels happy" (vague single-entity state with no concrete detail — what is Alice happy about?)
   - GOOD: "Alice feels happy about Bob's promotion" → Alice -> FEELS_HAPPY_ABOUT -> Bob's promotion
   - GOOD: "Nate plays games on a Gamecube" → Nate -> PLAYS_GAMES_ON -> Gamecube (when "Gamecube" is in ENTITIES)
   - GOOD: "Alice congratulated Bob" (relationship between two entities), "Alice lives in Paris" (relationship between entity and place)
4. Do not emit semantically redundant facts, even across episodes within the CURRENT_MESSAGE. However, if a later episode adds specific details to a previously stated fact (e.g., adding a brand name, a count, a color, a location, or any concrete attribute), extract the more detailed version as a NEW fact — it is NOT a duplicate. Only treat facts as duplicates when they convey the same specificity.
   - NOT a duplicate: "user plays video games" (Episode 0) vs. "user plays games on a Gamecube" (Episode 1) → extract the second, more detailed fact.
   - IS a duplicate: "user plays games on a Gamecube" (Episode 0) vs. "user plays Gamecube games" (Episode 1) → extract once, list both episodes in `episode_indices`.
5. The `fact` MUST preserve all specific details from the source text: proper nouns, brand names, product names, model numbers, quantities, counts, colors, materials, physical descriptions, specific items, named locations, and named activities. Paraphrase the sentence structure but NEVER generalize:
   - NEVER generalize "Gamecube" to "gaming console", "Ford Mustang" to "car", "wool coat" to "coat", "red and purple lighting" to "lighting", "cracked windshield" to "car damage", or "three screenplays" to "several screenplays".
   - Do not verbatim quote the original text, but every concrete noun, number, and descriptor in the source should survive into the `fact`.
6. Use `REFERENCE_TIME` to resolve vague or relative temporal expressions (e.g., "last week"). When the CURRENT_MESSAGE contains multiple episodes with per-episode timestamps, prefer the timestamp of the specific episode the fact originates from.
7. Do **not** hallucinate or infer temporal bounds from unrelated events.

# RELATION TYPE RULES

- If FACT_TYPES are provided and the relationship matches one of the types (considering the entity type signature), use that fact_type_name as the `relation_type`.
- Otherwise, derive a `relation_type` from the relationship predicate in SCREAMING_SNAKE_CASE (e.g., WORKS_AT, LIVES_IN, IS_FRIENDS_WITH).

# DATETIME RULES

- Use ISO 8601 with "Z" suffix (UTC) (e.g., 2025-04-30T00:00:00Z).
- If the fact is ongoing (present tense), set `valid_at` to the timestamp of the episode the fact originates from. If no per-episode timestamp is available, use REFERENCE_TIME.
- If a change/termination is expressed, set `invalid_at` to the relevant timestamp.
- Leave both fields `null` if no explicit or resolvable time is stated.
- If only a date is mentioned (no time), assume 00:00:00.
- If only a year is mentioned, use January 1st at 00:00:00.
        "#;

pub const FACT_TYPES_BEFORE_EDGE_TYPES: &'static str = r#"
<FACT_TYPES>
"#;

pub const FACT_TYPES_END: &'static str = r#"
</FACT_TYPES>
"#;

pub const TIMESTAMPS_SYSTEM: &'static str = "You extract temporal bounds from facts. NEVER hallucinate dates.";

pub const TIMESTAMPS_BEFORE_FACT: &'static str = r#"Given a FACT and its REFERENCE TIME, determine when the fact became true
(valid_at) and when it stopped being true (invalid_at).

Rules:
- Resolve relative expressions ("last week", "2 years ago", "yesterday") using REFERENCE TIME.
- If the fact is ongoing (present tense), set valid_at to REFERENCE TIME.
- If a change or end is expressed, set invalid_at to the relevant time.
- Leave both null if no time is stated or resolvable.
- If only a date is mentioned (no time), assume 00:00:00.
- Use ISO 8601 with Z suffix (e.g., 2025-04-30T00:00:00Z).
- Do NOT hallucinate or infer dates from unrelated events.

<FACT>
"#;

pub const TIMESTAMPS_BEFORE_REFERENCE_TIME: &'static str = r#"
</FACT>

<REFERENCE TIME>
"#;

pub const TIMESTAMPS_END: &'static str = r#"
</REFERENCE TIME>
"#;

/// What [`edge`] shows to the model.
pub struct EdgeContext<'a> {
    /// The earlier episodes, as an array of objects with content and timestamp.
    pub previous_episodes: &'a Json,
    pub episode_content: &'a str,
    pub nodes: &'a Json,
    pub reference_time: &'a str,
    /// The types of facts to look for, if any.
    pub edge_types: Option<&'a Json>,
    pub custom_extraction_instructions: &'a str,
}

/// The part of the prompt about types of facts: empty unless there are any.
pub open spec fn fact_types_section(edge_types: Option<JsonView>) -> Seq<char> {
    match edge_types {
        Some(types) => if json::json_falsy(types) {
            Seq::empty()
        } else {
            FACT_TYPES_BEFORE_EDGE_TYPES@ + json::json_text(types) + FACT_TYPES_END@
        },
        None => Seq::empty(),
    }
}

/// The messages of [`edge`].
pub open spec fn edge_prompt(
    previous: JsonView,
    content: Seq<char>,
    nodes: JsonView,
    time: Seq<char>,
    edge_types: Option<JsonView>,
    custom: Seq<char>,
) -> Seq<MessageView> {
    message::prompt(
        EDGE_SYSTEM@ + DO_NOT_ESCAPE_UNICODE@,
        EDGE_BEFORE_PREVIOUS_EPISODES@ + json::json_text(previous) + EDGE_BEFORE_EPISODE_CONTENT@ + content + EDGE_BEFORE_NODES@ + json::json_text(nodes) + EDGE_BEFORE_REFERENCE_TIME@ + time + EDGE_BEFORE_EDGE_TYPES_SECTION@ + fact_types_section(edge_types) + EDGE_BEFORE_CUSTOM_EXTRACTION_INSTRUCTIONS@ + custom + EDGE_END@,
    )
}

/// The view of an optional JSON value.
pub open spec fn opt_json(j: Option<&Json>) -> Option<JsonView> {
    match j {
        Some(v) => Some(v@),
        None => None,
    }
}

/// Asks for the facts that an episode states about the given entities.
pub fn edge(ctx: &EdgeContext<'_>) -> (r: Vec<Message>)
    ensures
        message::message_views(r@) == edge_prompt(
            ctx.previous_episodes@,
            ctx.episode_content@,
            ctx.nodes@,
            ctx.reference_time@,
            opt_json(ctx.edge_types),
            ctx.custom_extraction_instructions@,
        ),
{
    let section = match ctx.edge_types {
        Some(edge_types) => if edge_types.is_falsy() {
            String::new()
        } else {
            let text = to_prompt_json(edge_types);
            let mut section = owned(FACT_TYPES_BEFORE_EDGE_TYPES);
            section.append(text.as_str());
            section.append(FACT_TYPES_END);
            section
        },
        None => String::new(),
    };
    assert(section@ =~= fact_types_section(opt_json(ctx.edge_types)));
    let mut system = owned(EDGE_SYSTEM);
    system.append(DO_NOT_ESCAPE_UNICODE);
    let previous_episodes = to_prompt_json(ctx.previous_episodes);
    let nodes = to_prompt_json(ctx.nodes);
    let mut user = owned(EDGE_BEFORE_PREVIOUS_EPISODES);
    user.append(previous_episodes.as_str());
    user.append(EDGE_BEFORE_EPISODE_CONTENT);
    user.append(ctx.episode_content);
    user.append(EDGE_BEFORE_NODES);
    user.append(nodes.as_str());
    user.append(EDGE_BEFORE_REFERENCE_TIME);
    user.append(ctx.reference_time);
    user.append(EDGE_BEFORE_EDGE_TYPES_SECTION);
    user.append(section.as_str());
    user.append(EDGE_BEFORE_CUSTOM_EXTRACTION_INSTRUCTIONS);
    user.append(ctx.custom_extraction_instructions);
    user.append(EDGE_END);
    make_prompt(system, user)
}

/// What [`extract_timestamps`] shows to the model.
pub struct ExtractTimestampsContext<'a> {
    pub fact: &'a str,
    pub reference_time: &'a str,
}

/// The messages of [`extract_timestamps`].
pub open spec fn timestamps_prompt(fact: Seq<char>, reference_time: Seq<char>) -> Seq<MessageView> {
    message::prompt(
        TIMESTAMPS_SYSTEM@ + DO_NOT_ESCAPE_UNICODE@,
        TIMESTAMPS_BEFORE_FACT@ + fact + TIMESTAMPS_BEFORE_REFERENCE_TIME@ + reference_time + TIMESTAMPS_END@,
    )
}

/// Asks when a fact became true and when it stopped being true.
pub fn extract_timestamps(ctx: &ExtractTimestampsContext<'_>) -> (r: Vec<Message>)
    ensures
        message::message_views(r@) == timestamps_prompt(ctx.fact@, ctx.reference_time@),
{
    let mut system = owned(TIMESTAMPS_SYSTEM);
    system.append(DO_NOT_ESCAPE_UNICODE);
    let mut user = owned(TIMESTAMPS_BEFORE_FACT);
    user.append(ctx.fact);
    user.append(TIMESTAMPS_BEFORE_REFERENCE_TIME);
    user.append(ctx.reference_time);
    user.append(TIMESTAMPS_END);
    make_prompt(system, user)
}

} // verus!
