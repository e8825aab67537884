//! The prompt that resolves new entities against known ones.
use crate::json::{self, to_prompt_json, Json, JsonView};
use crate::llm::{Message, MessageView};
use crate::llm::message::{self, make_prompt};
use crate::prompts::helpers::DO_NOT_ESCAPE_UNICODE;
use crate::text::{self, decimal_string, owned};
use vstd::prelude::*;

verus! {

pub const NODES_SYSTEM: &'static str = "You are an entity deduplication assistant. NEVER fabricate entity names or mark distinct entities as duplicates.";

pub const NODES_BEFORE_PREVIOUS_EPISODES: &'static str = r#"
<PREVIOUS MESSAGES>
"#;

pub const NODES_BEFORE_EPISODE_CONTENT: &'static str = r#"
</PREVIOUS MESSAGES>

<CURRENT MESSAGE>
"#;

pub const NODES_BEFORE_EXTRACTED_NODES: &'static str = r#"
</CURRENT MESSAGE>

<ENTITIES>
"#;

pub const NODES_BEFORE_EXISTING_NODES: &'static str = r#"
</ENTITIES>

<EXISTING ENTITIES>
"#;

pub const NODES_BEFORE_COUNT: &'static str = r#"
</EXISTING ENTITIES>

Each of the above ENTITIES was extracted from the CURRENT MESSAGE.
For each entity, determine if it is a duplicate of any EXISTING ENTITY.
Entities should only be considered duplicates if they refer to the *same real-world object or concept*.

NEVER mark entities as duplicates if:
- They are related but distinct.
- They have similar names or purposes but refer to separate instances or concepts.

Task:
ENTITIES contains "#;

pub const NODES_BEFORE_COUNT_MINUS_ONE: &'static str = " entities with IDs 0 through ";

pub const NODES_BEFORE_COUNT_AGAIN: &'static str = r#".
Your response MUST include EXACTLY "#;

pub const NODES_BEFORE_COUNT_MINUS_ONE_AGAIN: &'static str = " resolutions with IDs 0 through ";

pub const NODES_END: &'static str = r#". Do not skip or add IDs.

For every entity, provide:
- `id`: integer id from ENTITIES
- `name`: the best full name for the entity (preserve the original name unless a duplicate has a more complete name)
- `duplicate_candidate_id`: the `candidate_id` of the EXISTING ENTITY that is the best duplicate match, or -1 if there is no duplicate

<EXAMPLE>
ENTITY: "Sam" (Person)
EXISTING ENTITIES: [{"candidate_id": 0, "name": "Sam", "entity_types": ["Person"], "summary": "Sam enjoys hiking and photography"}]
Result: duplicate_candidate_id = 0 (same person referenced in conversation)

ENTITY: "NYC"
EXISTING ENTITIES: [{"candidate_id": 0, "name": "New York City", "entity_types": ["Location"]}, {"candidate_id": 1, "name": "New York Knicks", "entity_types": ["Organization"]}]
Result: duplicate_candidate_id = 0 (same location, abbreviated name)

ENTITY: "Java" (programming language)
EXISTING ENTITIES: [{"candidate_id": 0, "name": "Java", "entity_types": ["Location"], "summary": "An island in Indonesia"}]
Result: duplicate_candidate_id = -1 (same name but distinct real-world things)

ENTITY: "Marco's car"
EXISTING ENTITIES: [{"candidate_id": 0, "name": "Marco's vehicle", "entity_types": ["Entity"], "summary": "Marco drives a red sedan."}]
Result: duplicate_candidate_id = 0 (synonym — "car" and "vehicle" refer to the same thing, same possessor)
</EXAMPLE>
"#;

/// What [`nodes`] shows to the model.
pub struct NodesContext<'a> {
    pub previous_episodes: &'a Json,
    pub episode_content: &'a str,
    /// The new entities, as an array.
    pub extracted_nodes: &'a Json,
    /// The known entities, as an array.
    pub existing_nodes: &'a Json,
}

/// The number of items of an array; any other value has none.
pub open spec fn item_count(j: JsonView) -> nat {
    match j {
        JsonView::Array(items) => items.len(),
        _ => 0,
    }
}

/// The greatest id of as many items, counted from zero.
pub open spec fn last_id(j: JsonView) -> nat {
    if item_count(j) == 0 {
        0
    } else {
        (item_count(j) - 1) as nat
    }
}

/// The messages of [`nodes`].
pub open spec fn nodes_prompt(
    previous: JsonView,
    content: Seq<char>,
    extracted: JsonView,
    existing: JsonView,
) -> Seq<MessageView> {
    message::prompt(
        NODES_SYSTEM@ + DO_NOT_ESCAPE_UNICODE@,
        NODES_BEFORE_PREVIOUS_EPISODES@ + json::json_text(previous) + NODES_BEFORE_EPISODE_CONTENT@ + content + NODES_BEFORE_EXTRACTED_NODES@ + json::json_text(extracted) + NODES_BEFORE_EXISTING_NODES@ + json::json_text(existing) + NODES_BEFORE_COUNT@ + text::decimal(item_count(extracted)) + NODES_BEFORE_COUNT_MINUS_ONE@ + text::decimal(last_id(extracted)) + NODES_BEFORE_COUNT_AGAIN@ + text::decimal(item_count(extracted)) + NODES_BEFORE_COUNT_MINUS_ONE_AGAIN@ + text::decimal(last_id(extracted)) + NODES_END@,
    )
}

/// Asks which of the known entities each of the new ones duplicates.
pub fn nodes(ctx: &NodesContext<'_>) -> (r: Vec<Message>)
    requires
        item_count(ctx.extracted_nodes@) > 0,
    ensures
        message::message_views(r@) == nodes_prompt(
            ctx.previous_episodes@,
            ctx.episode_content@,
            ctx.extracted_nodes@,
            ctx.existing_nodes@,
        ),
{
    let mut system = owned(NODES_SYSTEM);
    system.append(DO_NOT_ESCAPE_UNICODE);
    let previous_episodes = to_prompt_json(ctx.previous_episodes);
    let extracted_nodes = to_prompt_json(ctx.extracted_nodes);
    let existing_nodes = to_prompt_json(ctx.existing_nodes);
    let n: usize = match ctx.extracted_nodes {
        Json::Array(items) => {
            proof {
                json::lemma_json_views_index(items@);
            }
            items.len()
        },
        _ => 0,
    };
    let count = decimal_string(n as u128);
    let last = decimal_string((n - 1) as u128);
    let mut user = owned(NODES_BEFORE_PREVIOUS_EPISODES);
    user.append(previous_episodes.as_str());
    user.append(NODES_BEFORE_EPISODE_CONTENT);
    user.append(ctx.episode_content);
    user.append(NODES_BEFORE_EXTRACTED_NODES);
    user.append(extracted_nodes.as_str());
    user.append(NODES_BEFORE_EXISTING_NODES);
    user.append(existing_nodes.as_str());
    user.append(NODES_BEFORE_COUNT);
    user.append(count.as_str());
    user.append(NODES_BEFORE_COUNT_MINUS_ONE);
    user.append(last.as_str());
    user.append(NODES_BEFORE_COUNT_AGAIN);
    user.append(count.as_str());
    user.append(NODES_BEFORE_COUNT_MINUS_ONE_AGAIN);
    user.append(last.as_str());
    user.append(NODES_END);
    make_prompt(system, user)
}

} // verus!
