//! The prompt that keeps a saga's knowledge brief.
use crate::llm::{Message, MessageView};
use crate::llm::message::{self, make_prompt};
use crate::prompts::helpers::DO_NOT_ESCAPE_UNICODE;
use crate::text::{self, join_strings, owned};
use vstd::prelude::*;

verus! {

pub const SAGA_SYSTEM: &'static str = "You extract durable knowledge from message threads. Output a factual knowledge brief — facts, decisions, preferences, plans, entities, and relationships — that stands alone without reference to the original messages. Stay under 1000 characters.";

pub const SAGA_BEFORE_SAGA_NAME: &'static str = r#"NEVER use meta-language verbs: "mentioned", "discussed", "noted", "stated", "described", "referenced", "indicated", "reported", "talked about", "brought up" — these describe conversational dynamics, not knowledge. State facts directly instead.
NEVER refer to the messages, conversation, thread, or participants' communicative acts. The output must read as if no conversation happened — only the facts matter.
NEVER begin with "This conversation", "The thread", "In this thread", or "The discussion".
NEVER infer preferences or habits from a single passing mention. When a person explicitly states a preference ("I prefer X", "I love X", "I always do X"), capture it as a stated preference attributed to that person.

Your task: extract all durable knowledge from the MESSAGES below and produce a factual knowledge brief for the topic ""#;

pub const SAGA_BEFORE_EXISTING_SUMMARY_SECTION: &'static str = r#"".

Capture explicitly stated:
- Facts and concrete details (names, dates, numbers, locations)
- Decisions and their outcomes
- Preferences and requirements (when a person explicitly claims them)
- Plans, next steps, and commitments
- Relationships between entities (who works where, who owns what)
- State changes (what was X, now is Y)

Write 2-6 dense sentences. Use third person. Preserve all names, dates, counts, and temporal qualifiers. Lead with the most important fact or decision.
"#;

pub const SAGA_BEFORE_EPISODES_TEXT: &'static str = r#"
<MESSAGES>
"#;

pub const SAGA_END: &'static str = r#"
</MESSAGES>

<EXAMPLES>
MESSAGES: "Jordan: We decided to move the deployment to March 15 instead of March 8. The staging environment isn't ready.\n---\nPriya: Agreed. I'll update the client timeline. We also need to switch from PostgreSQL to CockroachDB for the multi-region requirement."
GOOD: "Deployment moved from March 8 to March 15 because the staging environment is not ready. Priya owns updating the client timeline. The database is switching from PostgreSQL to CockroachDB to support the multi-region requirement."
BAD: "Jordan mentioned moving the deployment date. Priya discussed updating the timeline and talked about switching databases. The team noted staging issues."
</EXAMPLES>

<EXAMPLES>
MESSAGES: "Alex: I tried the new Thai place on Elm Street last night — the pad see ew was incredible. Definitely going back.\n---\nMina: Oh nice, I've been wanting to try that. Is it the one next to the bookstore?\n---\nAlex: Yeah, Siam Kitchen. They're open until 11 PM on weekends."
GOOD: "Siam Kitchen is a Thai restaurant on Elm Street, next to a bookstore, open until 11 PM on weekends. Alex considers the pad see ew excellent."
BAD: "Alex mentioned trying a new Thai place and discussed the pad see ew. Mina asked about the location. Alex noted it was Siam Kitchen and stated the weekend hours."
</EXAMPLES>

<EXAMPLES>
MESSAGES: "Sam: I really prefer working in the mornings — I'm way more productive before noon.\n---\nDana: Same. I've been blocking 9-11 AM for deep work. Also, I can't stand Jira — can we move the tracker to Linear?\n---\nSam: Fine by me. I'll set up the workspace."
GOOD: "Sam prefers morning work and reports higher productivity before noon. Dana blocks 9-11 AM for deep work. Dana prefers Linear over Jira for issue tracking. Sam is setting up the Linear workspace."
BAD: "Sam and Dana discussed their work preferences. They talked about morning productivity and mentioned switching from Jira to Linear."
</EXAMPLES>
"#;

pub const KNOWLEDGE_BEFORE_EXISTING_SUMMARY: &'static str = r#"
<EXISTING_KNOWLEDGE>
"#;

pub const KNOWLEDGE_END: &'static str = r#"
</EXISTING_KNOWLEDGE>
The EXISTING_KNOWLEDGE contains previously extracted facts. Merge any new facts from MESSAGES into it. When newer messages contradict older facts, prefer the newer fact. If MESSAGES add no new durable facts, return the existing knowledge unchanged.
"#;

/// What [`summarize_saga`] shows to the model.
pub struct SummarizeSagaContext<'a> {
    pub saga_name: &'a str,
    /// The brief so far; empty where there is none.
    pub existing_summary: &'a str,
    pub episodes: &'a [String],
}

/// The episodes, a line of dashes between neighbours.
pub open spec fn episodes_text(episodes: Seq<Seq<char>>) -> Seq<char> {
    if episodes.len() == 0 {
        "(no messages)"@
    } else {
        text::join(episodes, "\n---\n"@)
    }
}

/// The part of the prompt about what is known already: empty where nothing is.
pub open spec fn knowledge_section(existing: Seq<char>) -> Seq<char> {
    if existing.len() == 0 {
        Seq::empty()
    } else {
        KNOWLEDGE_BEFORE_EXISTING_SUMMARY@ + existing + KNOWLEDGE_END@
    }
}

/// The messages of [`summarize_saga`].
pub open spec fn saga_prompt(
    name: Seq<char>,
    existing: Seq<char>,
    episodes: Seq<Seq<char>>,
) -> Seq<MessageView> {
    message::prompt(
        SAGA_SYSTEM@ + DO_NOT_ESCAPE_UNICODE@,
        SAGA_BEFORE_SAGA_NAME@ + name + SAGA_BEFORE_EXISTING_SUMMARY_SECTION@ + knowledge_section(existing) + SAGA_BEFORE_EPISODES_TEXT@ + episodes_text(episodes) + SAGA_END@,
    )
}

/// Asks for the durable knowledge of a thread of episodes.
pub fn summarize_saga(ctx: &SummarizeSagaContext<'_>) -> (r: Vec<Message>)
    ensures
        message::message_views(r@) == saga_prompt(
            ctx.saga_name@,
            ctx.existing_summary@,
            text::views(ctx.episodes@),
        ),
{
    assert(text::views(ctx.episodes@).len() == ctx.episodes@.len());
    let text = if ctx.episodes.len() == 0 {
        owned("(no messages)")
    } else {
        join_strings(ctx.episodes, "\n---\n")
    };
    let section = if ctx.existing_summary.is_empty() {
        String::new()
    } else {
        let mut section = owned(KNOWLEDGE_BEFORE_EXISTING_SUMMARY);
        section.append(ctx.existing_summary);
        section.append(KNOWLEDGE_END);
        section
    };
    assert(section@ =~= knowledge_section(ctx.existing_summary@));
    let mut system = owned(SAGA_SYSTEM);
    system.append(DO_NOT_ESCAPE_UNICODE);
    let mut user = owned(SAGA_BEFORE_SAGA_NAME);
    user.append(ctx.saga_name);
    user.append(SAGA_BEFORE_EXISTING_SUMMARY_SECTION);
    user.append(section.as_str());
    user.append(SAGA_BEFORE_EPISODES_TEXT);
    user.append(text.as_str());
    user.append(SAGA_END);
    make_prompt(system, user)
}

} // verus!
