//! The prompts that write summaries.
use crate::json::{self, quote, to_prompt_json, Json, JsonView};
use crate::llm::{Message, MessageView};
use crate::llm::message::{self, make_prompt};
use crate::prompts::helpers::DO_NOT_ESCAPE_UNICODE;
use crate::prompts::snippets::SUMMARY_INSTRUCTIONS;
use crate::text::owned;
use vstd::prelude::*;

verus! {

pub const CONTEXT_SYSTEM: &'static str = "You are a helpful assistant that generates detailed, information-dense summaries and attributes from provided text.";

pub const CONTEXT_BEFORE_SUMMARY_INSTRUCTIONS: &'static str = r#"
        Given the MESSAGES and the ENTITY name, create a summary for the ENTITY. Your summary must only use
        information from the provided MESSAGES. Your summary should also only contain information relevant to the
        provided ENTITY.

        In addition, extract any values for the provided entity properties based on their descriptions.
        If the value of the entity property cannot be found in the current context, set the value of the property to the Python value None.

        "#;

pub const CONTEXT_BEFORE_PREVIOUS_EPISODES: &'static str = r#"

        <MESSAGES>
        "#;

pub const CONTEXT_BEFORE_EPISODE_CONTENT: &'static str = r#"
        "#;

pub const CONTEXT_BEFORE_NODE_NAME: &'static str = r#"
        </MESSAGES>

        <ENTITY>
        "#;

pub const CONTEXT_BEFORE_NODE_SUMMARY: &'static str = r#"
        </ENTITY>

        <ENTITY CONTEXT>
        "#;

pub const CONTEXT_BEFORE_ATTRIBUTES: &'static str = r#"
        </ENTITY CONTEXT>

        <ATTRIBUTES>
        "#;

pub const CONTEXT_END: &'static str = r#"
        </ATTRIBUTES>
        "#;

pub const PAIR_SYSTEM: &'static str = "You are a helpful assistant that combines summaries into a single dense factual summary.";

pub const PAIR_BEFORE_NODE_SUMMARIES: &'static str = r#"
        Synthesize the information from the following two summaries into a single information-dense summary.

        IMPORTANT:
        - Preserve all materially relevant names, roles, places, dates, counts, and changes over time that are explicitly supported.
        - Prefer compact factual sentences over vague thematic phrasing.
        - When the durable fact is the content of what was said, state the content directly instead of narrating that it was said.
        - Use communication verbs only when the act of speaking, asking, sharing, presenting, or announcing is itself the important fact.
        - Avoid filler verbs like "mentioned", "described", "stated", "reported", "noted", "discussed", "referenced", and "indicated" unless the communication act itself matters.
        - SUMMARIES MUST BE LESS THAN 1000 CHARACTERS.

        Summaries:
        "#;

pub const PAIR_END: &'static str = r#"
        "#;

pub const DESCRIPTION_SYSTEM: &'static str = "You are a helpful assistant that describes provided contents in a single sentence.";

pub const DESCRIPTION_BEFORE_SUMMARY: &'static str = r#"
        Create a short one sentence description of the summary that explains what kind of information is summarized.
        Summaries must be under 1000 characters.

        Summary:
        "#;

pub const DESCRIPTION_END: &'static str = r#"
        "#;

/// What [`summarize_context`] shows to the model.
pub struct SummarizeContext<'a> {
    pub previous_episodes: &'a Json,
    pub episode_content: &'a Json,
    pub node_name: &'a str,
    pub node_summary: &'a str,
    pub attributes: &'a Json,
}

/// The messages of [`summarize_context`].
pub open spec fn context_prompt(
    previous: JsonView,
    content: JsonView,
    name: Seq<char>,
    summary: Seq<char>,
    attributes: JsonView,
) -> Seq<MessageView> {
    message::prompt(
        CONTEXT_SYSTEM@ + DO_NOT_ESCAPE_UNICODE@,
        CONTEXT_BEFORE_SUMMARY_INSTRUCTIONS@ + SUMMARY_INSTRUCTIONS@ + CONTEXT_BEFORE_PREVIOUS_EPISODES@ + json::json_text(previous) + CONTEXT_BEFORE_EPISODE_CONTENT@ + json::json_text(content) + CONTEXT_BEFORE_NODE_NAME@ + name + CONTEXT_BEFORE_NODE_SUMMARY@ + summary + CONTEXT_BEFORE_ATTRIBUTES@ + json::json_text(attributes) + CONTEXT_END@,
    )
}

/// Asks for a summary of an entity from the messages that mention it.
pub fn summarize_context(ctx: &SummarizeContext<'_>) -> (r: Vec<Message>)
    ensures
        message::message_views(r@) == context_prompt(
            ctx.previous_episodes@,
            ctx.episode_content@,
            ctx.node_name@,
            ctx.node_summary@,
            ctx.attributes@,
        ),
{
    let mut system = owned(CONTEXT_SYSTEM);
    system.append(DO_NOT_ESCAPE_UNICODE);
    let previous_episodes = to_prompt_json(ctx.previous_episodes);
    let episode_content = to_prompt_json(ctx.episode_content);
    let attributes = to_prompt_json(ctx.attributes);
    let mut user = owned(CONTEXT_BEFORE_SUMMARY_INSTRUCTIONS);
    user.append(SUMMARY_INSTRUCTIONS);
    user.append(CONTEXT_BEFORE_PREVIOUS_EPISODES);
    user.append(previous_episodes.as_str());
    user.append(CONTEXT_BEFORE_EPISODE_CONTENT);
    user.append(episode_content.as_str());
    user.append(CONTEXT_BEFORE_NODE_NAME);
    user.append(ctx.node_name);
    user.append(CONTEXT_BEFORE_NODE_SUMMARY);
    user.append(ctx.node_summary);
    user.append(CONTEXT_BEFORE_ATTRIBUTES);
    user.append(attributes.as_str());
    user.append(CONTEXT_END);
    make_prompt(system, user)
}

/// What [`summarize_pair`] shows to the model.
pub struct SummarizePairContext<'a> {
    pub left_summary: &'a str,
    pub right_summary: &'a str,
}

/// A summary as an object.
pub open spec fn summary_object(summary: Seq<char>) -> JsonView {
    JsonView::Object(seq![("summary"@, JsonView::Str(summary))])
}

/// The messages of [`summarize_pair`].
pub open spec fn pair_prompt(left: Seq<char>, right: Seq<char>) -> Seq<MessageView> {
    let node_summaries = JsonView::Array(seq![summary_object(left), summary_object(right)]);
    message::prompt(
        PAIR_SYSTEM@ + DO_NOT_ESCAPE_UNICODE@,
        PAIR_BEFORE_NODE_SUMMARIES@ + json::json_text(node_summaries) + PAIR_END@,
    )
}

fn make_summary_object(summary: &str) -> (r: Json)
    ensures
        r@ == summary_object(summary@),
{
    let mut members: Vec<(String, Json)> = Vec::new();
    members.push((owned("summary"), Json::Str(owned(summary))));
    proof {
        crate::json::lemma_member_views_index(members@);
        assert(json::member_views(members@) =~= seq![("summary"@, JsonView::Str(summary@))]);
    }
    Json::Object(members)
}

/// Asks for one summary in the place of two.
pub fn summarize_pair(ctx: &SummarizePairContext<'_>) -> (r: Vec<Message>)
    ensures
        message::message_views(r@) == pair_prompt(ctx.left_summary@, ctx.right_summary@),
{
    let mut system = owned(PAIR_SYSTEM);
    system.append(DO_NOT_ESCAPE_UNICODE);
    let mut items: Vec<Json> = Vec::new();
    items.push(make_summary_object(ctx.left_summary));
    items.push(make_summary_object(ctx.right_summary));
    proof {
        crate::json::lemma_json_views_index(items@);
        assert(json::json_views(items@) =~= seq![
            summary_object(ctx.left_summary@),
            summary_object(ctx.right_summary@),
        ]);
    }
    let node_summaries = to_prompt_json(&Json::Array(items));
    let mut user = owned(PAIR_BEFORE_NODE_SUMMARIES);
    user.append(node_summaries.as_str());
    user.append(PAIR_END);
    make_prompt(system, user)
}

/// What [`summary_description`] shows to the model.
pub struct SummaryDescriptionContext<'a> {
    pub summary: &'a str,
}

/// The messages of [`summary_description`].
pub open spec fn description_prompt(summary: Seq<char>) -> Seq<MessageView> {
    message::prompt(
        DESCRIPTION_SYSTEM@ + DO_NOT_ESCAPE_UNICODE@,
        DESCRIPTION_BEFORE_SUMMARY@ + json::json_quoted(summary) + DESCRIPTION_END@,
    )
}

/// Asks for one sentence that describes a summary.
pub fn summary_description(ctx: &SummaryDescriptionContext<'_>) -> (r: Vec<Message>)
    ensures
        message::message_views(r@) == description_prompt(ctx.summary@),
{
    let mut system = owned(DESCRIPTION_SYSTEM);
    system.append(DO_NOT_ESCAPE_UNICODE);
    let summary = quote(ctx.summary);
    let mut user = owned(DESCRIPTION_BEFORE_SUMMARY);
    user.append(summary.as_str());
    user.append(DESCRIPTION_END);
    make_prompt(system, user)
}

} // verus!
