//! The prompt that resolves a new fact against known ones.
use crate::llm::{Message, MessageView};
use crate::llm::message::{self, make_prompt};
use crate::prompts::helpers::DO_NOT_ESCAPE_UNICODE;
use crate::text::owned;
use vstd::prelude::*;

verus! {

pub const RESOLVE_EDGE_SYSTEM: &'static str = "You are a fact deduplication assistant. NEVER mark facts with key differences as duplicates.";

pub const RESOLVE_EDGE_BEFORE_EXISTING_EDGES: &'static str = r#"
NEVER mark facts as duplicates if they have key differences, particularly around numeric values, dates, or key qualifiers.

IMPORTANT constraints:
- duplicate_facts: ONLY idx values from EXISTING FACTS (NEVER include FACT INVALIDATION CANDIDATES)
- contradicted_facts: idx values from EITHER list (EXISTING FACTS or FACT INVALIDATION CANDIDATES)
- The idx values are continuous across both lists (INVALIDATION CANDIDATES start where EXISTING FACTS end)

<EXISTING FACTS>
"#;

pub const RESOLVE_EDGE_BEFORE_EDGE_INVALIDATION_CANDIDATES: &'static str = r#"
</EXISTING FACTS>

<FACT INVALIDATION CANDIDATES>
"#;

pub const RESOLVE_EDGE_BEFORE_NEW_EDGE: &'static str = r#"
</FACT INVALIDATION CANDIDATES>

<NEW FACT>
"#;

pub const RESOLVE_EDGE_END: &'static str = r#"
</NEW FACT>

You will receive TWO lists of facts with CONTINUOUS idx numbering across both lists.
EXISTING FACTS are indexed first, followed by FACT INVALIDATION CANDIDATES.

1. DUPLICATE DETECTION:
   - If the NEW FACT represents identical factual information as any fact in EXISTING FACTS, return those idx values in duplicate_facts.
   - If no duplicates, return an empty list for duplicate_facts.

2. CONTRADICTION DETECTION:
   - Determine which facts the NEW FACT contradicts from either list.
   - A fact from EXISTING FACTS can be both a duplicate AND contradicted (e.g., semantically the same but the new fact updates/supersedes it).
   - Return all contradicted idx values in contradicted_facts.
   - If no contradictions, return an empty list for contradicted_facts.

<EXAMPLE>
EXISTING FACT: idx=0, "Alice joined Acme Corp in 2020"
NEW FACT: "Alice joined Acme Corp in 2020"
Result: duplicate_facts=[0], contradicted_facts=[] (identical factual information)

EXISTING FACT: idx=1, "Alice works at Acme Corp as a software engineer"
NEW FACT: "Alice works at Acme Corp as a senior engineer"
Result: duplicate_facts=[], contradicted_facts=[1] (same relationship but updated title — contradiction, NOT a duplicate)

EXISTING FACT: idx=2, "Bob ran 5 miles on Tuesday"
NEW FACT: "Bob ran 3 miles on Wednesday"
Result: duplicate_facts=[], contradicted_facts=[] (different events on different days — neither duplicate nor contradiction)
</EXAMPLE>
"#;

/// What [`resolve_edge`] shows to the model, each part as it is.
pub struct ResolveEdgeContext<'a> {
    pub existing_edges: &'a str,
    pub edge_invalidation_candidates: &'a str,
    pub new_edge: &'a str,
}

/// The messages of [`resolve_edge`].
pub open spec fn resolve_edge_prompt(
    existing: Seq<char>,
    candidates: Seq<char>,
    new_edge: Seq<char>,
) -> Seq<MessageView> {
    message::prompt(
        RESOLVE_EDGE_SYSTEM@ + DO_NOT_ESCAPE_UNICODE@,
        RESOLVE_EDGE_BEFORE_EXISTING_EDGES@ + existing + RESOLVE_EDGE_BEFORE_EDGE_INVALIDATION_CANDIDATES@ + candidates + RESOLVE_EDGE_BEFORE_NEW_EDGE@ + new_edge + RESOLVE_EDGE_END@,
    )
}

/// Asks which known facts a new fact duplicates and which it contradicts.
pub fn resolve_edge(ctx: &ResolveEdgeContext<'_>) -> (r: Vec<Message>)
    ensures
        message::message_views(r@) == resolve_edge_prompt(
            ctx.existing_edges@,
            ctx.edge_invalidation_candidates@,
            ctx.new_edge@,
        ),
{
    let mut system = owned(RESOLVE_EDGE_SYSTEM);
    system.append(DO_NOT_ESCAPE_UNICODE);
    let mut user = owned(RESOLVE_EDGE_BEFORE_EXISTING_EDGES);
    user.append(ctx.existing_edges);
    user.append(RESOLVE_EDGE_BEFORE_EDGE_INVALIDATION_CANDIDATES);
    user.append(ctx.edge_invalidation_candidates);
    user.append(RESOLVE_EDGE_BEFORE_NEW_EDGE);
    user.append(ctx.new_edge);
    user.append(RESOLVE_EDGE_END);
    make_prompt(system, user)
}

} // verus!
