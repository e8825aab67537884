//! Extraction and resolution of facts.
use crate::collections::StringSet;
use crate::helpers::{self, isoformat, normalize_string_exact, utc_now, RELEVANT_SCHEMA_LIMIT};
use crate::ids;
use crate::json::{self, attributes_to_json, strings_to_json, text_member, Json, JsonView};
use crate::llm::{self, LlmRequest, ModelSize};
use crate::pipeline::dedup_index::holds;
use crate::pipeline::node_ops::{self, previous_episodes_context};
use crate::pipeline::temporal::{
    self, expire_new_edge_against_candidates, resolve_edge_contradictions,
};
use crate::prompts::dedupe_edges::{self, resolve_edge, ResolveEdgeContext};
use crate::prompts::extract_edges::{
    self, edge, extract_timestamps, EdgeContext, ExtractTimestampsContext,
};
use crate::prompts::models::{EdgeDuplicate, EdgeTimestamps, ExtractedEdge};
use crate::prompts::summarize_nodes::{self, summarize_context, SummarizeContext};
use crate::text::{
    self, chars_of, decimal_string, is_blank, join_strings, owned, replace_char, single, str_eq,
};
use crate::time::{self, parse_rfc3339, Timestamp};
use crate::types::{
    self, clone_edges, Embedding, EntityEdge, EntityEdgeView, EntityNode, EntityNodeView,
    EpisodicNode,
};
use vstd::prelude::*;

verus! {

/// The facts that came out of an episode and the known facts that they put an end to.
#[derive(Debug)]
pub struct EdgeResolutionOutcome {
    pub resolved_edges: Vec<EntityEdge>,
    pub invalidated_edges: Vec<EntityEdge>,
}

/// An entity as the model is shown it beside an episode.
pub open spec fn entity_entry(n: EntityNodeView) -> JsonView {
    JsonView::Object(
        seq![("entity_types"@, json::string_array(n.labels)), ("name"@, JsonView::Str(n.name))],
    )
}

/// Entities as the model is shown them beside an episode.
pub open spec fn entity_entries(nodes: Seq<EntityNodeView>) -> JsonView {
    JsonView::Array(nodes.map_values(|n: EntityNodeView| entity_entry(n)))
}

fn entities_context(nodes: &[EntityNode]) -> (r: Json)
    ensures
        r@ == entity_entries(types::node_views(nodes@)),
{
    let mut out: Vec<Json> = Vec::new();
    let mut i: usize = 0;
    while i < nodes.len()
        invariant
            i <= nodes@.len(),
            out@.len() == i,
            forall|j: int| 0 <= j < i ==> (#[trigger] out@[j])@ == entity_entry(nodes@[j]@),
        decreases nodes.len() - i,
    {
        let node = &nodes[i];
        let mut members: Vec<(String, Json)> = Vec::new();
        members.push((owned("entity_types"), strings_to_json(&node.labels)));
        members.push(text_member("name", node.name.as_str()));
        proof {
            json::lemma_member_views_index(members@);
            assert(json::member_views(members@) =~= seq![
                ("entity_types"@, json::string_array(node@.labels)),
                ("name"@, JsonView::Str(node@.name)),
            ]);
        }
        out.push(Json::Object(members));
        i += 1;
    }
    proof {
        json::lemma_json_views_index(out@);
        assert(json::json_views(out@) =~= types::node_views(nodes@).map_values(
            |n: EntityNodeView| entity_entry(n),
        ));
    }
    Json::Array(out)
}

/// The text that an optional text stands for.
pub open spec fn text_or_empty(s: Option<&str>) -> Seq<char> {
    match s {
        Some(t) => t@,
        None => ""@,
    }
}

/// Asks the model for the facts that an episode states about the given entities. Without
/// entities nothing is asked.
pub fn extract_edges_request(
    episode: &EpisodicNode,
    nodes: &[EntityNode],
    previous_episodes: &[EpisodicNode],
    custom_extraction_instructions: Option<&str>,
) -> (r: Option<LlmRequest>)
    ensures
        r is None <==> nodes@.len() == 0,
        r is Some ==> llm::asks(
            r->0,
            extract_edges::edge_prompt(
                node_ops::episode_entries(types::episode_views(previous_episodes@)),
                episode@.content,
                entity_entries(types::node_views(nodes@)),
                time::iso_text(episode@.valid_at),
                None,
                text_or_empty(custom_extraction_instructions),
            ),
            ModelSize::Medium,
            "extract_edges.edge"@,
        ),
{
    if nodes.len() == 0 {
        return None;
    }
    let nodes_context = entities_context(nodes);
    let prev = previous_episodes_context(previous_episodes);
    let reference_time = isoformat(episode.valid_at);
    let custom = match custom_extraction_instructions {
        Some(t) => t,
        None => "",
    };
    let ctx = EdgeContext {
        previous_episodes: &prev,
        episode_content: episode.content.as_str(),
        nodes: &nodes_context,
        reference_time: reference_time.as_str(),
        edge_types: None,
        custom_extraction_instructions: custom,
    };
    Some(LlmRequest::new(edge(&ctx)).named("extract_edges.edge"))
}

/// The instant that a date in an answer denotes: a `Z` stands for UTC.
pub open spec fn iso_instant(raw: Seq<char>) -> Option<Timestamp> {
    time::instant_of(text::replaced(raw, 'Z', "+00:00"@))
}

/// The instant that a date in an answer denotes, if it is one.
pub fn parse_iso_or_warn(raw: &str) -> (r: Option<Timestamp>)
    ensures
        r == iso_instant(raw@),
{
    let normalized = replace_char(raw, 'Z', "+00:00");
    parse_rfc3339(normalized.as_str())
}

/// The instant that an optional date in an answer denotes.
pub open spec fn stated_instant(raw: Option<Seq<char>>) -> Option<Timestamp> {
    match raw {
        Some(s) => iso_instant(s),
        None => None,
    }
}

fn parse_stated(raw: &Option<String>) -> (r: Option<Timestamp>)
    ensures
        r == stated_instant(text::opt_view(*raw)),
{
    match raw {
        Some(s) => parse_iso_or_warn(s.as_str()),
        None => None,
    }
}

/// The last of the entities with a name.
pub open spec fn last_named(nodes: Seq<EntityNodeView>, name: Seq<char>) -> Option<EntityNodeView>
    decreases nodes.len(),
{
    if nodes.len() == 0 {
        None
    } else if nodes.last().name == name {
        Some(nodes.last())
    } else {
        last_named(nodes.drop_last(), name)
    }
}

fn find_named<'a>(nodes: &'a [EntityNode], name: &str) -> (r: Option<&'a EntityNode>)
    ensures
        match last_named(types::node_views(nodes@), name@) {
            Some(v) => r matches Some(n) && n@ == v,
            None => r is None,
        },
{
    let ghost all = types::node_views(nodes@);
    let mut i: usize = nodes.len();
    assert(all.take(i as int) =~= all);
    while i > 0
        invariant
            i <= nodes@.len(),
            all == types::node_views(nodes@),
            last_named(all, name@) == last_named(all.take(i as int), name@),
        decreases i,
    {
        proof {
            assert(all.take(i as int).last() == nodes@[i - 1]@);
            assert(all.take(i as int).drop_last() =~= all.take(i - 1));
        }
        if str_eq(nodes[i - 1].name.as_str(), name) {
            return Some(&nodes[i - 1]);
        }
        i -= 1;
    }
    None
}

/// Holds where a fact of an answer is kept: both its entities are known and differ, and it is
/// not blank.
pub open spec fn is_kept(e: ExtractedEdge, nodes: Seq<EntityNodeView>) -> bool {
    &&& last_named(nodes, e.source_entity_name@) matches Some(s)
    &&& last_named(nodes, e.target_entity_name@) matches Some(t)
    &&& s.uuid != t.uuid
    &&& text::trim(e.fact@).len() > 0
}

/// The facts of an answer that are kept, in order.
pub open spec fn kept_edges(edges: Seq<ExtractedEdge>, nodes: Seq<EntityNodeView>) -> Seq<
    ExtractedEdge,
>
    decreases edges.len(),
{
    if edges.len() == 0 {
        Seq::empty()
    } else if is_kept(edges.last(), nodes) {
        kept_edges(edges.drop_last(), nodes).push(edges.last())
    } else {
        kept_edges(edges.drop_last(), nodes)
    }
}

/// Holds where `edge` is the fresh fact of an answer: between the entities that it names, from
/// the given episode, with the dates that it states.
pub open spec fn is_edge_of(
    edge: EntityEdgeView,
    e: ExtractedEdge,
    nodes: Seq<EntityNodeView>,
    group_id: Seq<char>,
    episode_uuid: Seq<char>,
) -> bool {
    &&& ids::is_random_uuid(edge.uuid)
    &&& last_named(nodes, e.source_entity_name@) is Some
    &&& last_named(nodes, e.target_entity_name@) is Some
    &&& edge == EntityEdgeView {
        uuid: edge.uuid,
        source_node_uuid: last_named(nodes, e.source_entity_name@)->0.uuid,
        target_node_uuid: last_named(nodes, e.target_entity_name@)->0.uuid,
        name: e.relation_type@,
        fact: e.fact@,
        group_id,
        episodes: seq![episode_uuid],
        created_at: edge.created_at,
        expired_at: None,
        valid_at: stated_instant(text::opt_view(e.valid_at)),
        invalid_at: stated_instant(text::opt_view(e.invalid_at)),
        attributes: Map::empty(),
        fact_embedding: None,
    }
}

/// The facts that the model found in an episode: one for each that names two known, different
/// entities and is not blank. A date that cannot be read counts as none.
pub fn edges_from_extraction(
    edges: &Vec<ExtractedEdge>,
    nodes: &[EntityNode],
    group_id: &str,
    episode_uuid: &str,
) -> (r: Vec<EntityEdge>)
    ensures
        r@.len() == kept_edges(edges@, types::node_views(nodes@)).len(),
        forall|i: int|
            0 <= i < r@.len() ==> is_edge_of(
                (#[trigger] r@[i])@,
                kept_edges(edges@, types::node_views(nodes@))[i],
                types::node_views(nodes@),
                group_id@,
                episode_uuid@,
            ),
{
    let ghost known = types::node_views(nodes@);
    let mut out: Vec<EntityEdge> = Vec::new();
    let mut i: usize = 0;
    while i < edges.len()
        invariant
            i <= edges@.len(),
            known == types::node_views(nodes@),
            out@.len() == kept_edges(edges@.take(i as int), known).len(),
            forall|j: int|
                0 <= j < out@.len() ==> is_edge_of(
                    (#[trigger] out@[j])@,
                    kept_edges(edges@.take(i as int), known)[j],
                    known,
                    group_id@,
                    episode_uuid@,
                ),
        decreases edges.len() - i,
    {
        assert(edges@.take(i as int + 1).drop_last() =~= edges@.take(i as int));
        let e = &edges[i];
        match (
            find_named(nodes, e.source_entity_name.as_str()),
            find_named(nodes, e.target_entity_name.as_str()),
        ) {
            (Some(source), Some(target)) => {
                let same = str_eq(source.uuid.as_str(), target.uuid.as_str());
                if !same && !is_blank(e.fact.as_str()) {
                    let mut fresh = EntityEdge::new(
                        source.uuid.clone(),
                        target.uuid.clone(),
                        e.relation_type.clone(),
                        e.fact.clone(),
                        owned(group_id),
                    );
                    fresh.episodes = single(episode_uuid);
                    fresh.created_at = utc_now();
                    fresh.valid_at = parse_stated(&e.valid_at);
                    fresh.invalid_at = parse_stated(&e.invalid_at);
                    assert(is_edge_of(fresh@, *e, known, group_id@, episode_uuid@));
                    out.push(fresh);
                }
            },
            _ => {},
        }
        i += 1;
    }
    assert(edges@.take(edges@.len() as int) =~= edges@);
    out
}

/// Holds where two facts say the same of the same entities, but for white space and case.
pub open spec fn same_fact(a: EntityEdgeView, b: EntityEdgeView) -> bool {
    &&& a.source_node_uuid == b.source_node_uuid
    &&& a.target_node_uuid == b.target_node_uuid
    &&& helpers::normal_form(a.fact) == helpers::normal_form(b.fact)
}

/// Holds where one of the first `n` facts says the same as `e`.
pub open spec fn said_before(edges: Seq<EntityEdgeView>, n: int, e: EntityEdgeView) -> bool {
    exists|j: int| 0 <= j < n && same_fact(#[trigger] edges[j], e)
}

/// The facts that say something that none before them says, in order.
pub open spec fn distinct_facts(edges: Seq<EntityEdgeView>) -> Seq<EntityEdgeView>
    decreases edges.len(),
{
    if edges.len() == 0 {
        Seq::empty()
    } else {
        let before = distinct_facts(edges.drop_last());
        if said_before(edges, edges.len() - 1, edges.last()) {
            before
        } else {
            before.push(edges.last())
        }
    }
}

fn is_same_fact(a: &EntityEdge, normal_a: &str, b: &EntityEdge, normal_b: &str) -> (r: bool)
    requires
        normal_a@ == helpers::normal_form(a@.fact),
        normal_b@ == helpers::normal_form(b@.fact),
    ensures
        r == same_fact(a@, b@),
{
    str_eq(a.source_node_uuid.as_str(), b.source_node_uuid.as_str()) && str_eq(
        a.target_node_uuid.as_str(),
        b.target_node_uuid.as_str(),
    ) && str_eq(normal_a, normal_b)
}

/// Leaves of the facts that say the same only the first.
pub fn dedupe_extracted(edges: &Vec<EntityEdge>) -> (r: Vec<EntityEdge>)
    ensures
        types::edge_views(r@) == distinct_facts(types::edge_views(edges@)),
{
    let ghost all = types::edge_views(edges@);
    let mut normals: Vec<String> = Vec::new();
    let mut out: Vec<EntityEdge> = Vec::new();
    let mut i: usize = 0;
    assert(types::edge_views(out@) =~= distinct_facts(all.take(0)));
    while i < edges.len()
        invariant
            i <= edges@.len(),
            all == types::edge_views(edges@),
            normals@.len() == i,
            forall|j: int| 0 <= j < i ==> (#[trigger] normals@[j])@ == helpers::normal_form(
                edges@[j]@.fact,
            ),
            types::edge_views(out@) == distinct_facts(all.take(i as int)),
        decreases edges.len() - i,
    {
        let normal = normalize_string_exact(edges[i].fact.as_str());
        let mut found = false;
        let mut j: usize = 0;
        while j < i
            invariant
                j <= i < edges@.len(),
                all == types::edge_views(edges@),
                normals@.len() == i,
                forall|k: int|
                    0 <= k < i ==> (#[trigger] normals@[k])@ == helpers::normal_form(
                        edges@[k]@.fact,
                    ),
                normal@ == helpers::normal_form(edges@[i as int]@.fact),
                found == exists|k: int| 0 <= k < j && same_fact(#[trigger] all[k], all[i as int]),
            decreases i - j,
        {
            assert(all[j as int] == edges@[j as int]@);
            if is_same_fact(&edges[j], normals[j].as_str(), &edges[i], normal.as_str()) {
                found = true;
            }
            j += 1;
        }
        proof {
            let next = all.take(i as int + 1);
            assert(next.drop_last() =~= all.take(i as int));
            assert(next.last() == edges@[i as int]@);
            assert forall|k: int| 0 <= k < i implies #[trigger] next[k] == all[k] by {}
            if said_before(next, i as int, next.last()) {
                let k = choose|k: int| 0 <= k < i && same_fact(#[trigger] next[k], next.last());
                assert(same_fact(all[k], all[i as int]));
            }
            if found {
                let k = choose|k: int| 0 <= k < i && same_fact(#[trigger] all[k], all[i as int]);
                assert(same_fact(next[k], next.last()));
            }
        }
        if !found {
            let ghost before = out@;
            out.push(edges[i].clone());
            assert(types::edge_views(out@) =~= types::edge_views(before).push(edges@[i as int]@));
        }
        normals.push(normal);
        i += 1;
    }
    assert(all.take(all.len() as int) =~= all);
    out
}

/// The texts of facts, to be embedded.
pub fn facts_to_embed(edges: &Vec<EntityEdge>) -> (r: Vec<String>)
    ensures
        text::views(r@) == types::edge_views(edges@).map_values(|e: EntityEdgeView| e.fact),
{
    let mut out: Vec<String> = Vec::new();
    let mut i: usize = 0;
    while i < edges.len()
        invariant
            i <= edges@.len(),
            out@.len() == i,
            forall|j: int| 0 <= j < i ==> (#[trigger] out@[j])@ == edges@[j]@.fact,
        decreases edges.len() - i,
    {
        out.push(edges[i].fact.clone());
        i += 1;
    }
    assert(text::views(out@) =~= types::edge_views(edges@).map_values(|e: EntityEdgeView| e.fact));
    out
}

/// Facts with the embeddings that came back for them, as far as any came back.
pub open spec fn with_embeddings(
    edges: Seq<EntityEdgeView>,
    embeddings: Seq<Embedding>,
) -> Seq<EntityEdgeView> {
    edges.map(
        |i: int, e: EntityEdgeView|
            if i < embeddings.len() {
                EntityEdgeView { fact_embedding: Some(embeddings[i]@), ..e }
            } else {
                e
            },
    )
}

/// Gives each fact the embedding that came back for it.
pub fn embed_facts(edges: Vec<EntityEdge>, embeddings: &Vec<Embedding>) -> (r: Vec<EntityEdge>)
    ensures
        types::edge_views(r@) == with_embeddings(types::edge_views(edges@), embeddings@),
{
    let mut out: Vec<EntityEdge> = Vec::new();
    let mut i: usize = 0;
    while i < edges.len()
        invariant
            i <= edges@.len(),
            out@.len() == i,
            forall|j: int|
                0 <= j < i ==> (#[trigger] out@[j])@ == with_embeddings(
                    types::edge_views(edges@),
                    embeddings@,
                )[j],
        decreases edges.len() - i,
    {
        let mut e = edges[i].clone();
        if i < embeddings.len() {
            let v = embeddings[i].clone();
            assert(v@ =~= embeddings@[i as int]@);
            e.fact_embedding = Some(v);
        }
        out.push(e);
        i += 1;
    }
    assert(types::edge_views(out@) =~= with_embeddings(types::edge_views(edges@), embeddings@));
    out
}

/// The identifiers of a sequence of facts.
pub open spec fn edge_uuids(edges: Seq<EntityEdgeView>) -> Set<Seq<char>> {
    edges.map_values(|e: EntityEdgeView| e.uuid).to_set()
}

/// The facts whose identifiers are not in a set, in order.
pub open spec fn outside(edges: Seq<EntityEdgeView>, uuids: Set<Seq<char>>) -> Seq<EntityEdgeView>
    decreases edges.len(),
{
    if edges.len() == 0 {
        Seq::empty()
    } else if uuids.contains(edges.last().uuid) {
        outside(edges.drop_last(), uuids)
    } else {
        outside(edges.drop_last(), uuids).push(edges.last())
    }
}

/// The first facts, as many as are looked at.
pub open spec fn first_related(edges: Seq<EntityEdgeView>) -> Seq<EntityEdgeView> {
    if edges.len() <= RELEVANT_SCHEMA_LIMIT {
        edges
    } else {
        edges.take(RELEVANT_SCHEMA_LIMIT as int)
    }
}

/// Parts the known facts that a new fact is compared with: those between the same entities, at
/// most [`RELEVANT_SCHEMA_LIMIT`], and those that a search found besides.
pub fn candidate_pools(between: &Vec<EntityEdge>, hits: &Vec<EntityEdge>) -> (r: (
    Vec<EntityEdge>,
    Vec<EntityEdge>,
))
    ensures
        types::edge_views(r.0@) == first_related(types::edge_views(between@)),
        types::edge_views(r.1@) == outside(
            types::edge_views(hits@),
            edge_uuids(first_related(types::edge_views(between@))),
        ),
{
    let ghost known = types::edge_views(between@);
    let mut related: Vec<EntityEdge> = Vec::new();
    let mut uuids = StringSet::new();
    let mut i: usize = 0;
    assert(uuids@ =~= edge_uuids(known.take(0)));
    while i < between.len() && i < RELEVANT_SCHEMA_LIMIT
        invariant
            i <= between@.len(),
            i <= RELEVANT_SCHEMA_LIMIT,
            known == types::edge_views(between@),
            related@.len() == i,
            forall|j: int| 0 <= j < i ==> (#[trigger] related@[j])@ == known[j],
            uuids@ == edge_uuids(known.take(i as int)),
        decreases between.len() - i,
    {
        related.push(between[i].clone());
        let _ = uuids.insert(between[i].uuid.clone());
        proof {
            let done = known.take(i as int).map_values(|e: EntityEdgeView| e.uuid);
            let next = known.take(i as int + 1).map_values(|e: EntityEdgeView| e.uuid);
            assert(next =~= done.push(between@[i as int]@.uuid));
            assert(next.to_set() =~= done.to_set().insert(between@[i as int]@.uuid)) by {
                assert forall|x: Seq<char>| next.to_set().contains(x) == done.to_set().insert(
                    between@[i as int]@.uuid,
                ).contains(x) by {
                    if done.contains(x) {
                        let k = choose|k: int| 0 <= k < done.len() && done[k] == x;
                        assert(next[k] == x);
                    }
                    if x == between@[i as int]@.uuid {
                        assert(next[i as int] == x);
                    }
                    if next.contains(x) {
                        let k = choose|k: int| 0 <= k < next.len() && next[k] == x;
                        if k < i {
                            assert(done[k] == x);
                        }
                    }
                }
            }
        }
        i += 1;
    }
    assert(types::edge_views(related@) =~= first_related(known));
    assert(known.take(i as int) =~= first_related(known));
    let ghost all = types::edge_views(hits@);
    let mut existing: Vec<EntityEdge> = Vec::new();
    let mut k: usize = 0;
    assert(types::edge_views(existing@) =~= outside(all.take(0), uuids@));
    while k < hits.len()
        invariant
            k <= hits@.len(),
            all == types::edge_views(hits@),
            types::edge_views(existing@) == outside(all.take(k as int), uuids@),
        decreases hits.len() - k,
    {
        proof {
            assert(all.take(k as int + 1).drop_last() =~= all.take(k as int));
            assert(all.take(k as int + 1).last() == hits@[k as int]@);
        }
        if !uuids.contains(hits[k].uuid.as_str()) {
            let ghost before = existing@;
            existing.push(hits[k].clone());
            assert(
                types::edge_views(existing@) =~= types::edge_views(before).push(hits@[k as int]@)
            );
        }
        k += 1;
    }
    assert(all.take(all.len() as int) =~= all);
    (related, existing)
}

/// A character inside a Python string literal between `quote` characters. Control characters
/// and those up to the no-break space are written by their number.
pub open spec fn python_escaped(c: char, quote: char) -> Seq<char> {
    if c == '\\' {
        seq!['\\', '\\']
    } else if c == quote {
        seq!['\\', c]
    } else if c == '\n' {
        seq!['\\', 'n']
    } else if c == '\r' {
        seq!['\\', 'r']
    } else if c == '\t' {
        seq!['\\', 't']
    } else if (c as int) < 0x20 || 0x7f <= c as int <= 0xa0 {
        seq!['\\', 'x', ids::hex_digit(c as int / 16), ids::hex_digit(c as int % 16)]
    } else {
        seq![c]
    }
}

/// The characters inside a Python string literal.
pub open spec fn python_body(s: Seq<char>, quote: char) -> Seq<char>
    decreases s.len(),
{
    if s.len() == 0 {
        Seq::empty()
    } else {
        python_body(s.drop_last(), quote) + python_escaped(s.last(), quote)
    }
}

/// The quote of a Python string literal: the double one where the text holds a single one and
/// no double one, and the single one otherwise.
pub open spec fn python_quote(s: Seq<char>) -> char {
    if s.contains('\'') && !s.contains('"') {
        '"'
    } else {
        '\''
    }
}

/// A text as a Python string literal.
pub open spec fn python_literal(s: Seq<char>) -> Seq<char> {
    let quote = python_quote(s);
    seq![quote] + python_body(s, quote) + seq![quote]
}

fn hex_digit_char(d: u32) -> (r: char)
    requires
        d < 16,
    ensures
        r == ids::hex_digit(d as int),
{
    if d < 10 {
        (d as u8 + 48u8) as char
    } else {
        ((d - 10) as u8 + 97u8) as char
    }
}

fn push_python_escaped(out: &mut String, c: char, quote: char)
    ensures
        final(out)@ == old(out)@ + python_escaped(c, quote),
{
    let ghost before = out@;
    let code: u32 = c as u32;
    if c == '\\' {
        out.push('\\');
        out.push('\\');
    } else if c == quote {
        out.push('\\');
        out.push(c);
    } else if c == '\n' {
        out.push('\\');
        out.push('n');
    } else if c == '\r' {
        out.push('\\');
        out.push('r');
    } else if c == '\t' {
        out.push('\\');
        out.push('t');
    } else if code < 0x20 || (0x7f <= code && code <= 0xa0) {
        out.push('\\');
        out.push('x');
        out.push(hex_digit_char(code / 16));
        out.push(hex_digit_char(code % 16));
    } else {
        out.push(c);
    }
    assert(out@ =~= before + python_escaped(c, quote));
}

/// A text as a Python string literal.
pub fn python_repr_str(s: &str) -> (r: String)
    ensures
        r@ == python_literal(s@),
{
    let chars = chars_of(s);
    let mut has_single = false;
    let mut has_double = false;
    let mut i: usize = 0;
    while i < chars.len()
        invariant
            i <= chars@.len(),
            chars@ == s@,
            has_single == exists|j: int| 0 <= j < i && (#[trigger] s@[j]) == '\'',
            has_double == exists|j: int| 0 <= j < i && (#[trigger] s@[j]) == '"',
        decreases chars.len() - i,
    {
        assert(s@[i as int] == chars@[i as int]);
        if chars[i] == '\'' {
            has_single = true;
        }
        if chars[i] == '"' {
            has_double = true;
        }
        i += 1;
    }
    assert(has_single == s@.contains('\''));
    assert(has_double == s@.contains('"'));
    let quote = if has_single && !has_double {
        '"'
    } else {
        '\''
    };
    let mut out = String::new();
    out.push(quote);
    let mut k: usize = 0;
    assert(out@ =~= seq![quote] + python_body(s@.take(0), quote));
    while k < chars.len()
        invariant
            k <= chars@.len(),
            chars@ == s@,
            out@ == seq![quote] + python_body(s@.take(k as int), quote),
        decreases chars.len() - k,
    {
        proof {
            assert(s@.take(k as int + 1).drop_last() =~= s@.take(k as int));
        }
        let ghost before = out@;
        push_python_escaped(&mut out, chars[k], quote);
        assert(out@ =~= seq![quote] + python_body(s@.take(k as int + 1), quote));
        k += 1;
    }
    assert(s@.take(s@.len() as int) =~= s@);
    out.push(quote);
    assert(out@ =~= python_literal(s@));
    out
}

proof fn lemma_python_body_front(s: Seq<char>, quote: char)
    requires
        s.len() > 0,
    ensures
        python_body(s, quote) == python_escaped(s[0], quote) + python_body(s.skip(1), quote),
    decreases s.len(),
{
    let init = s.drop_last();
    if s.len() == 1 {
        assert(init =~= Seq::empty());
        assert(s.skip(1) =~= Seq::empty());
        assert(python_body(init, quote) =~= Seq::empty());
        assert(python_body(s.skip(1), quote) =~= Seq::empty());
        assert(s.last() == s[0]);
    } else {
        lemma_python_body_front(init, quote);
        assert(init.skip(1) =~= s.skip(1).drop_last());
        assert(s.skip(1).last() == s.last());
        assert(python_body(s, quote) =~= python_escaped(s[0], quote) + python_body(
            s.skip(1),
            quote,
        ));
    }
}

proof fn lemma_python_escapes_differ(a: char, b: char, x: Seq<char>, y: Seq<char>, quote: char)
    requires
        quote == '\'' || quote == '"',
        python_escaped(a, quote) + x == python_escaped(b, quote) + y,
    ensures
        a == b,
        x == y,
{
    let ea = python_escaped(a, quote);
    let eb = python_escaped(b, quote);
    let both = ea + x;
    assert(both[0] == ea[0] && both[0] == eb[0]);
    if ea.len() > 1 {
        assert(both[1] == ea[1] && both[1] == eb[1]);
    }
    if ea.len() > 2 {
        assert(both[2] == ea[2] && both[2] == eb[2]);
        assert(both[3] == ea[3] && both[3] == eb[3]);
    }
    assert(ea.len() == eb.len());
    assert(a == b);
    assert(x =~= both.skip(ea.len() as int));
    assert(y =~= both.skip(ea.len() as int));
}

proof fn lemma_python_bodies_differ(s: Seq<char>, t: Seq<char>, quote: char)
    requires
        quote == '\'' || quote == '"',
        python_body(s, quote) == python_body(t, quote),
    ensures
        s == t,
    decreases s.len(),
{
    if s.len() > 0 {
        lemma_python_body_front(s, quote);
    }
    if t.len() > 0 {
        lemma_python_body_front(t, quote);
    }
    if s.len() > 0 && t.len() > 0 {
        lemma_python_escapes_differ(
            s[0],
            t[0],
            python_body(s.skip(1), quote),
            python_body(t.skip(1), quote),
            quote,
        );
        lemma_python_bodies_differ(s.skip(1), t.skip(1), quote);
        assert(s =~= seq![s[0]] + s.skip(1));
        assert(t =~= seq![t[0]] + t.skip(1));
    } else {
        assert(s =~= t);
    }
}

/// Holds where no character is a control character or the no-break space.
pub open spec fn without_controls(s: Seq<char>) -> bool {
    forall|i: int|
        0 <= i < s.len() ==> 0x20 <= (#[trigger] s[i]) as int && !(0x7f <= s[i] as int <= 0xa0)
}

proof fn lemma_python_escape_without_controls(c: char, quote: char)
    requires
        quote == '\'' || quote == '"',
    ensures
        without_controls(python_escaped(c, quote)),
{
    let code = c as int;
    if code <= 0xa0 {
        assert(0 <= code / 16 < 16 && 0 <= code % 16 < 16);
        assert(0x30 <= ids::hex_digit(code / 16) as int <= 0x66);
        assert(0x30 <= ids::hex_digit(code % 16) as int <= 0x66);
    }
}

proof fn lemma_python_body_without_controls(s: Seq<char>, quote: char)
    requires
        quote == '\'' || quote == '"',
    ensures
        without_controls(python_body(s, quote)),
    decreases s.len(),
{
    if s.len() > 0 {
        let before = python_body(s.drop_last(), quote);
        let e = python_escaped(s.last(), quote);
        lemma_python_body_without_controls(s.drop_last(), quote);
        lemma_python_escape_without_controls(s.last(), quote);
        assert forall|i: int| 0 <= i < (before + e).len() implies 0x20 <= (#[trigger] (before
            + e)[i]) as int && !(0x7f <= (before + e)[i] as int <= 0xa0) by {
            if i < before.len() {
                assert((before + e)[i] == before[i]);
            } else {
                assert((before + e)[i] == e[i - before.len()]);
            }
        }
    }
}

/// A Python literal stands between two of its quotes and has no control character, so it is on
/// one line.
pub proof fn law_python_literal_has_no_controls(s: Seq<char>)
    ensures
        python_literal(s).len() >= 2,
        python_literal(s)[0] == python_quote(s),
        python_literal(s).last() == python_quote(s),
        without_controls(python_literal(s)),
{
    let quote = python_quote(s);
    let body = python_body(s, quote);
    let literal = python_literal(s);
    lemma_python_body_without_controls(s, quote);
    assert forall|i: int| 0 <= i < literal.len() implies 0x20 <= (#[trigger] literal[i]) as int && !(
    0x7f <= literal[i] as int <= 0xa0) by {
        if 0 < i < literal.len() - 1 {
            assert(literal[i] == body[i - 1]);
        }
    }
}

/// Different texts have different Python literals.
pub proof fn law_python_literals_differ(s: Seq<char>, t: Seq<char>)
    requires
        s != t,
    ensures
        python_literal(s) != python_literal(t),
{
    if python_literal(s) == python_literal(t) {
        let literal = python_literal(s);
        law_python_literal_has_no_controls(s);
        law_python_literal_has_no_controls(t);
        let quote = python_quote(s);
        assert(python_quote(t) == quote);
        assert(python_body(s, quote) =~= literal.subrange(1, literal.len() - 1));
        assert(python_body(t, quote) =~= literal.subrange(1, literal.len() - 1));
        lemma_python_bodies_differ(s, t, quote);
    }
}

/// A fact under a number, as the model is shown it.
pub open spec fn numbered_fact(id: int, fact: Seq<char>) -> Seq<char> {
    "{'idx': "@ + text::decimal(id as nat) + ", 'fact': "@ + python_literal(fact) + "}"@
}

/// Facts under numbers from `offset` on, as the model is shown them.
pub open spec fn numbered_facts(edges: Seq<EntityEdgeView>, offset: int) -> Seq<char> {
    "["@ + text::join(
        edges.map(|i: int, e: EntityEdgeView| numbered_fact(offset + i, e.fact)),
        ", "@,
    ) + "]"@
}

/// Facts under numbers from `offset` on, as a Python list of dictionaries.
pub fn python_repr_edge_context(edges: &[EntityEdge], offset: usize) -> (r: String)
    requires
        offset + edges@.len() <= usize::MAX,
    ensures
        r@ == numbered_facts(types::edge_views(edges@), offset as int),
{
    let mut items: Vec<String> = Vec::new();
    let mut i: usize = 0;
    while i < edges.len()
        invariant
            i <= edges@.len(),
            offset + edges@.len() <= usize::MAX,
            items@.len() == i,
            forall|j: int|
                0 <= j < i ==> (#[trigger] items@[j])@ == numbered_fact(
                    offset + j,
                    edges@[j]@.fact,
                ),
        decreases edges.len() - i,
    {
        let mut item = owned("{'idx': ");
        let id = decimal_string((offset + i) as u128);
        item.append(id.as_str());
        item.append(", 'fact': ");
        let fact = python_repr_str(edges[i].fact.as_str());
        item.append(fact.as_str());
        item.append("}");
        items.push(item);
        i += 1;
    }
    assert(text::views(items@) =~= types::edge_views(edges@).map(
        |i: int, e: EntityEdgeView| numbered_fact(offset + i, e.fact),
    ));
    let mut out = owned("[");
    let joined = join_strings(&items, ", ");
    out.append(joined.as_str());
    out.append("]");
    out
}

/// What a new fact resolved to and the known facts that it puts an end to.
#[derive(Debug)]
pub struct EdgeResolution {
    pub resolved: EntityEdge,
    pub invalidated: Vec<EntityEdge>,
}

/// [`EdgeResolution`] as plain values.
pub struct EdgeResolutionView {
    pub resolved: EntityEdgeView,
    pub invalidated: Seq<EntityEdgeView>,
}

impl View for EdgeResolution {
    type V = EdgeResolutionView;

    open spec fn view(&self) -> EdgeResolutionView {
        EdgeResolutionView {
            resolved: self.resolved@,
            invalidated: types::edge_views(self.invalidated@),
        }
    }
}

/// A new fact and the known facts that the model is to compare it with.
#[derive(Debug)]
pub struct EdgeQuestion {
    pub extracted: EntityEdge,
    /// Known facts between the same entities.
    pub related: Vec<EntityEdge>,
    /// Other known facts that it may contradict.
    pub existing: Vec<EntityEdge>,
}

/// A fact whose dates the model is to find, with the facts that contradict it.
#[derive(Debug)]
pub struct UndatedEdge {
    pub edge: EntityEdge,
    pub candidates: Vec<EntityEdge>,
}

/// How the resolution of a new fact stands.
#[derive(Debug)]
pub enum EdgeStep {
    /// It is over.
    Done(EdgeResolution),
    /// The model has to say which known facts it duplicates and contradicts.
    AskDuplicates(EdgeQuestion),
    /// The model has to say when it became true and stopped being true.
    AskTimestamps(UndatedEdge),
}

/// [`EdgeStep`] as plain values.
pub enum EdgeStepView {
    Done(EdgeResolutionView),
    AskDuplicates {
        extracted: EntityEdgeView,
        related: Seq<EntityEdgeView>,
        existing: Seq<EntityEdgeView>,
    },
    AskTimestamps { edge: EntityEdgeView, candidates: Seq<EntityEdgeView> },
}

impl View for EdgeStep {
    type V = EdgeStepView;

    open spec fn view(&self) -> EdgeStepView {
        match self {
            EdgeStep::Done(r) => EdgeStepView::Done(r@),
            EdgeStep::AskDuplicates(q) => EdgeStepView::AskDuplicates {
                extracted: q.extracted@,
                related: types::edge_views(q.related@),
                existing: types::edge_views(q.existing@),
            },
            EdgeStep::AskTimestamps(u) => EdgeStepView::AskTimestamps {
                edge: u.edge@,
                candidates: types::edge_views(u.candidates@),
            },
        }
    }
}

/// The first of the facts that says the same as `e`.
pub open spec fn first_same(edges: Seq<EntityEdgeView>, e: EntityEdgeView) -> Option<EntityEdgeView>
    decreases edges.len(),
{
    if edges.len() == 0 {
        None
    } else {
        match first_same(edges.drop_last(), e) {
            Some(found) => Some(found),
            None => if same_fact(edges.last(), e) {
                Some(edges.last())
            } else {
                None
            },
        }
    }
}

/// A fact that an episode mentions, too.
pub open spec fn with_episode(e: EntityEdgeView, episode_uuid: Seq<char>) -> EntityEdgeView {
    if e.episodes.contains(episode_uuid) {
        e
    } else {
        EntityEdgeView { episodes: e.episodes.push(episode_uuid), ..e }
    }
}

/// The outcome for a fact with its dates: it is held against the facts that contradict it, and
/// puts an end to those that began earlier.
pub open spec fn settled(
    edge: EntityEdgeView,
    candidates: Seq<EntityEdgeView>,
    now: Timestamp,
) -> EdgeResolutionView {
    let held = temporal::held_against(edge, candidates, now);
    EdgeResolutionView { resolved: held, invalidated: temporal::invalidated_facts(held, candidates, now) }
}

/// The step for a fact that is new: its dates are asked for unless it has any.
pub open spec fn dating_step(
    edge: EntityEdgeView,
    candidates: Seq<EntityEdgeView>,
    now: Timestamp,
) -> EdgeStepView {
    if edge.valid_at is Some || edge.invalid_at is Some {
        EdgeStepView::Done(settled(edge, candidates, now))
    } else {
        EdgeStepView::AskTimestamps { edge, candidates }
    }
}

/// The first step: a fact without known facts to compare it with is new; one that says the same
/// as a related fact is that fact; any other goes to the model.
pub open spec fn first_step(
    extracted: EntityEdgeView,
    related: Seq<EntityEdgeView>,
    existing: Seq<EntityEdgeView>,
    episode_uuid: Seq<char>,
    now: Timestamp,
) -> EdgeStepView {
    if related.len() == 0 && existing.len() == 0 {
        dating_step(extracted, Seq::empty(), now)
    } else {
        match first_same(related, extracted) {
            Some(found) => EdgeStepView::Done(
                EdgeResolutionView {
                    resolved: with_episode(found, episode_uuid),
                    invalidated: Seq::empty(),
                },
            ),
            None => EdgeStepView::AskDuplicates { extracted, related, existing },
        }
    }
}

/// The first of the numbers that is a position below `n`.
pub open spec fn first_position(numbers: Seq<i64>, n: nat) -> Option<int>
    decreases numbers.len(),
{
    if numbers.len() == 0 {
        None
    } else {
        match first_position(numbers.drop_last(), n) {
            Some(i) => Some(i),
            None => if 0 <= numbers.last() < n {
                Some(numbers.last() as int)
            } else {
                None
            },
        }
    }
}

/// The facts at the numbers that are positions, in the order of the numbers.
pub open spec fn facts_at(edges: Seq<EntityEdgeView>, numbers: Seq<i64>) -> Seq<EntityEdgeView>
    decreases numbers.len(),
{
    if numbers.len() == 0 {
        Seq::empty()
    } else if 0 <= numbers.last() < edges.len() {
        facts_at(edges, numbers.drop_last()).push(edges[numbers.last() as int])
    } else {
        facts_at(edges, numbers.drop_last())
    }
}

/// The step after the model has named the known facts that a fact duplicates and contradicts.
/// The first related fact that it duplicates stands in its place. Numbers that are no positions
/// are passed over.
pub open spec fn second_step(
    extracted: EntityEdgeView,
    related: Seq<EntityEdgeView>,
    existing: Seq<EntityEdgeView>,
    duplicates: Seq<i64>,
    contradicted: Seq<i64>,
    episode_uuid: Seq<char>,
    now: Timestamp,
) -> EdgeStepView {
    let resolved = match first_position(duplicates, related.len()) {
        Some(i) => with_episode(related[i], episode_uuid),
        None => extracted,
    };
    let candidates = facts_at(related + existing, contradicted);
    if resolved.uuid == extracted.uuid {
        dating_step(resolved, candidates, now)
    } else {
        EdgeStepView::Done(settled(resolved, candidates, now))
    }
}

/// A fact with the dates that the model found. Without an answer it keeps none.
pub open spec fn dated(
    edge: EntityEdgeView,
    answer: Option<(Option<Seq<char>>, Option<Seq<char>>)>,
) -> EntityEdgeView {
    match answer {
        Some((valid_at, invalid_at)) => EntityEdgeView {
            valid_at: match valid_at {
                Some(s) => iso_instant(s),
                None => edge.valid_at,
            },
            invalid_at: match invalid_at {
                Some(s) => iso_instant(s),
                None => edge.invalid_at,
            },
            ..edge
        },
        None => edge,
    }
}

/// The dates of an answer as plain values.
pub open spec fn stated_dates(answer: Option<EdgeTimestamps>) -> Option<
    (Option<Seq<char>>, Option<Seq<char>>),
> {
    match answer {
        Some(t) => Some((text::opt_view(t.valid_at), text::opt_view(t.invalid_at))),
        None => None,
    }
}

fn settle(edge: EntityEdge, candidates: Vec<EntityEdge>, now: Timestamp) -> (r: EdgeResolution)
    ensures
        r@ == settled(edge@, types::edge_views(candidates@), now),
{
    let mut resolved = edge;
    expire_new_edge_against_candidates(&mut resolved, candidates.as_slice(), now);
    let invalidated = resolve_edge_contradictions(&resolved, candidates, now);
    EdgeResolution { resolved, invalidated }
}

fn to_dating_step(edge: EntityEdge, candidates: Vec<EntityEdge>, now: Timestamp) -> (r: EdgeStep)
    ensures
        r@ == dating_step(edge@, types::edge_views(candidates@), now),
{
    if edge.valid_at.is_some() || edge.invalid_at.is_some() {
        EdgeStep::Done(settle(edge, candidates, now))
    } else {
        EdgeStep::AskTimestamps(UndatedEdge { edge, candidates })
    }
}

fn add_episode_uuid(edge: &mut EntityEdge, episode_uuid: &str)
    ensures
        final(edge)@ == with_episode(old(edge)@, episode_uuid@),
{
    if !holds(&edge.episodes, episode_uuid) {
        let ghost before = edge.episodes@;
        edge.episodes.push(owned(episode_uuid));
        assert(text::views(edge.episodes@) =~= text::views(before).push(episode_uuid@));
    }
}

/// Begins the resolution of a new fact.
pub fn begin_edge_resolution(
    extracted_edge: EntityEdge,
    related_edges: Vec<EntityEdge>,
    existing_edges: Vec<EntityEdge>,
    episode_uuid: &str,
    now: Timestamp,
) -> (r: EdgeStep)
    ensures
        r@ == first_step(
            extracted_edge@,
            types::edge_views(related_edges@),
            types::edge_views(existing_edges@),
            episode_uuid@,
            now,
        ),
{
    if related_edges.len() == 0 && existing_edges.len() == 0 {
        let none: Vec<EntityEdge> = Vec::new();
        assert(types::edge_views(none@) =~= Seq::<EntityEdgeView>::empty());
        return to_dating_step(extracted_edge, none, now);
    }
    let ghost all = types::edge_views(related_edges@);
    let normal = normalize_string_exact(extracted_edge.fact.as_str());
    let mut i: usize = 0;
    while i < related_edges.len()
        invariant
            i <= related_edges@.len(),
            all == types::edge_views(related_edges@),
            normal@ == helpers::normal_form(extracted_edge@.fact),
            first_same(all.take(i as int), extracted_edge@) is None,
            related_edges@.len() > 0 || existing_edges@.len() > 0,
        decreases related_edges.len() - i,
    {
        proof {
            assert(all.take(i as int + 1).drop_last() =~= all.take(i as int));
            assert(all.take(i as int + 1).last() == related_edges@[i as int]@);
        }
        let other = normalize_string_exact(related_edges[i].fact.as_str());
        if is_same_fact(&related_edges[i], other.as_str(), &extracted_edge, normal.as_str()) {
            let mut resolved = related_edges[i].clone();
            add_episode_uuid(&mut resolved, episode_uuid);
            let invalidated: Vec<EntityEdge> = Vec::new();
            proof {
                lemma_first_same_extends(all, extracted_edge@, i as int + 1);
                assert(types::edge_views(invalidated@) =~= Seq::<EntityEdgeView>::empty());
            }
            return EdgeStep::Done(EdgeResolution { resolved, invalidated });
        }
        i += 1;
    }
    assert(all.take(all.len() as int) =~= all);
    EdgeStep::AskDuplicates(
        EdgeQuestion {
            extracted: extracted_edge,
            related: related_edges,
            existing: existing_edges,
        },
    )
}

/// A fact that is found among the first facts is the one found among all.
proof fn lemma_first_same_extends(edges: Seq<EntityEdgeView>, e: EntityEdgeView, n: int)
    requires
        0 <= n <= edges.len(),
        first_same(edges.take(n), e) is Some,
    ensures
        first_same(edges, e) == first_same(edges.take(n), e),
    decreases edges.len(),
{
    if n == edges.len() {
        assert(edges.take(n) =~= edges);
    } else {
        assert(edges.drop_last().take(n) =~= edges.take(n));
        lemma_first_same_extends(edges.drop_last(), e, n);
    }
}

/// Asks the model which known facts a new fact duplicates and contradicts. The related facts
/// are numbered first, the others after them.
pub fn duplicates_request(question: &EdgeQuestion) -> (r: LlmRequest)
    requires
        question.related@.len() + question.existing@.len() <= usize::MAX,
    ensures
        llm::asks(
            r,
            dedupe_edges::resolve_edge_prompt(
                numbered_facts(types::edge_views(question.related@), 0),
                numbered_facts(
                    types::edge_views(question.existing@),
                    question.related@.len() as int,
                ),
                question.extracted@.fact,
            ),
            ModelSize::Small,
            "dedupe_edges.resolve_edge"@,
        ),
{
    let related = python_repr_edge_context(question.related.as_slice(), 0);
    let existing = python_repr_edge_context(question.existing.as_slice(), question.related.len());
    let ctx = ResolveEdgeContext {
        existing_edges: related.as_str(),
        edge_invalidation_candidates: existing.as_str(),
        new_edge: question.extracted.fact.as_str(),
    };
    LlmRequest::new(resolve_edge(&ctx)).small().named("dedupe_edges.resolve_edge")
}

/// The first of the numbers that is a position below `n`.
fn find_position(numbers: &Vec<i64>, n: usize) -> (r: Option<usize>)
    ensures
        match first_position(numbers@, n as nat) {
            Some(i) => r matches Some(j) && j == i && j < n,
            None => r is None,
        },
{
    let mut found: Option<usize> = None;
    let mut i: usize = 0;
    while i < numbers.len()
        invariant
            i <= numbers@.len(),
            match first_position(numbers@.take(i as int), n as nat) {
                Some(p) => found matches Some(j) && j == p && j < n,
                None => found is None,
            },
        decreases numbers.len() - i,
    {
        assert(numbers@.take(i as int + 1).drop_last() =~= numbers@.take(i as int));
        let number = numbers[i];
        if found.is_none() && number >= 0 && (number as u64) < n as u64 {
            found = Some(number as usize);
        }
        i += 1;
    }
    assert(numbers@.take(numbers@.len() as int) =~= numbers@);
    found
}

/// The facts of two lists, numbered one after the other, at the numbers that are positions.
fn collect_facts(
    related: &Vec<EntityEdge>,
    existing: &Vec<EntityEdge>,
    numbers: &Vec<i64>,
) -> (r: Vec<EntityEdge>)
    ensures
        types::edge_views(r@) == facts_at(
            types::edge_views(related@) + types::edge_views(existing@),
            numbers@,
        ),
{
    let ghost all = types::edge_views(related@) + types::edge_views(existing@);
    let mut out: Vec<EntityEdge> = Vec::new();
    let mut i: usize = 0;
    assert(types::edge_views(out@) =~= facts_at(all, numbers@.take(0)));
    while i < numbers.len()
        invariant
            i <= numbers@.len(),
            all == types::edge_views(related@) + types::edge_views(existing@),
            types::edge_views(out@) == facts_at(all, numbers@.take(i as int)),
        decreases numbers.len() - i,
    {
        assert(numbers@.take(i as int + 1).drop_last() =~= numbers@.take(i as int));
        let number = numbers[i];
        let ghost before = out@;
        if number >= 0 {
            let at: u64 = number as u64;
            let split: u64 = related.len() as u64;
            if at < split {
                assert(all[number as int] == related@[number as int]@);
                out.push(related[at as usize].clone());
                assert(
                    types::edge_views(out@) =~= types::edge_views(before).push(all[number as int])
                );
            } else if at - split < existing.len() as u64 {
                assert(all[number as int] == existing@[number - related@.len()]@);
                out.push(existing[(at - split) as usize].clone());
                assert(
                    types::edge_views(out@) =~= types::edge_views(before).push(all[number as int])
                );
            }
        }
        i += 1;
    }
    assert(numbers@.take(numbers@.len() as int) =~= numbers@);
    out
}

/// Goes on with a resolution once the model has named the known facts that the new fact
/// duplicates and contradicts.
pub fn take_duplicates(
    question: EdgeQuestion,
    answer: &EdgeDuplicate,
    episode_uuid: &str,
    now: Timestamp,
) -> (r: EdgeStep)
    ensures
        r@ == second_step(
            question.extracted@,
            types::edge_views(question.related@),
            types::edge_views(question.existing@),
            answer.duplicate_facts@,
            answer.contradicted_facts@,
            episode_uuid@,
            now,
        ),
{
    let candidates = collect_facts(
        &question.related,
        &question.existing,
        &answer.contradicted_facts,
    );
    let resolved = match find_position(&answer.duplicate_facts, question.related.len()) {
        Some(i) => {
            let mut known = question.related[i].clone();
            add_episode_uuid(&mut known, episode_uuid);
            known
        },
        None => question.extracted.clone(),
    };
    if str_eq(resolved.uuid.as_str(), question.extracted.uuid.as_str()) {
        to_dating_step(resolved, candidates, now)
    } else {
        EdgeStep::Done(settle(resolved, candidates, now))
    }
}

/// Asks the model when a fact became true and when it stopped being true.
pub fn timestamps_request(edge: &EntityEdge, reference_time: Timestamp) -> (r: LlmRequest)
    ensures
        llm::asks(
            r,
            extract_edges::timestamps_prompt(edge@.fact, time::iso_text(reference_time)),
            ModelSize::Small,
            "extract_edges.extract_timestamps"@,
        ),
{
    let time = isoformat(reference_time);
    let ctx = ExtractTimestampsContext {
        fact: edge.fact.as_str(),
        reference_time: time.as_str(),
    };
    LlmRequest::new(extract_timestamps(&ctx)).small().named("extract_edges.extract_timestamps")
}

/// Ends a resolution once the model has dated the new fact. Where it could not be asked, the
/// fact stays without dates.
pub fn take_timestamps(undated: UndatedEdge, answer: Option<EdgeTimestamps>, now: Timestamp) -> (r:
    EdgeResolution)
    ensures
        r@ == settled(
            dated(undated.edge@, stated_dates(answer)),
            types::edge_views(undated.candidates@),
            now,
        ),
{
    let mut edge = undated.edge;
    match answer {
        Some(t) => {
            match &t.valid_at {
                Some(s) => {
                    edge.valid_at = parse_iso_or_warn(s.as_str());
                },
                None => {},
            }
            match &t.invalid_at {
                Some(s) => {
                    edge.invalid_at = parse_iso_or_warn(s.as_str());
                },
                None => {},
            }
        },
        None => {},
    }
    settle(edge, undated.candidates, now)
}

/// The facts that resolutions put an end to, one resolution after the other.
pub open spec fn all_invalidated(resolutions: Seq<EdgeResolutionView>) -> Seq<EntityEdgeView>
    decreases resolutions.len(),
{
    if resolutions.len() == 0 {
        Seq::empty()
    } else {
        all_invalidated(resolutions.drop_last()) + resolutions.last().invalidated
    }
}

/// The views of resolutions.
pub open spec fn resolution_views(resolutions: Seq<EdgeResolution>) -> Seq<EdgeResolutionView> {
    resolutions.map_values(|r: EdgeResolution| r@)
}

/// Puts the resolutions of an episode's facts together, in order.
pub fn collect_resolutions(resolutions: &Vec<EdgeResolution>) -> (r: EdgeResolutionOutcome)
    ensures
        types::edge_views(r.resolved_edges@) == resolution_views(resolutions@).map_values(
            |v: EdgeResolutionView| v.resolved,
        ),
        types::edge_views(r.invalidated_edges@) == all_invalidated(resolution_views(resolutions@)),
{
    let ghost all = resolution_views(resolutions@);
    let mut resolved: Vec<EntityEdge> = Vec::new();
    let mut invalidated: Vec<EntityEdge> = Vec::new();
    let mut i: usize = 0;
    assert(types::edge_views(invalidated@) =~= all_invalidated(all.take(0)));
    while i < resolutions.len()
        invariant
            i <= resolutions@.len(),
            all == resolution_views(resolutions@),
            resolved@.len() == i,
            forall|j: int| 0 <= j < i ==> (#[trigger] resolved@[j])@ == all[j].resolved,
            types::edge_views(invalidated@) == all_invalidated(all.take(i as int)),
        decreases resolutions.len() - i,
    {
        proof {
            assert(all.take(i as int + 1).drop_last() =~= all.take(i as int));
            assert(all.take(i as int + 1).last() == resolutions@[i as int]@);
        }
        resolved.push(resolutions[i].resolved.clone());
        let mut more = clone_edges(&resolutions[i].invalidated);
        let ghost before = invalidated@;
        let ghost added = more@;
        invalidated.append(&mut more);
        assert(
            types::edge_views(invalidated@) =~= types::edge_views(before) + types::edge_views(added)
        );
        i += 1;
    }
    assert(all.take(all.len() as int) =~= all);
    assert(types::edge_views(resolved@) =~= all.map_values(|v: EdgeResolutionView| v.resolved));
    EdgeResolutionOutcome { resolved_edges: resolved, invalidated_edges: invalidated }
}

/// Asks the model for a summary of an entity from an episode that mentions it.
pub fn summary_request(
    node: &EntityNode,
    episode: &EpisodicNode,
    previous_episodes: &[EpisodicNode],
) -> (r: LlmRequest)
    ensures
        llm::asks(
            r,
            summarize_nodes::context_prompt(
                node_ops::episode_entries(types::episode_views(previous_episodes@)),
                JsonView::Str(episode@.content),
                node@.name,
                node@.summary,
                json::object_of(node@.attributes),
            ),
            ModelSize::Small,
            "summarize_nodes.summarize_context"@,
        ),
{
    let prev = previous_episodes_context(previous_episodes);
    let content = Json::Str(episode.content.clone());
    let attributes = attributes_to_json(&node.attributes);
    let ctx = SummarizeContext {
        previous_episodes: &prev,
        episode_content: &content,
        node_name: node.name.as_str(),
        node_summary: node.summary.as_str(),
        attributes: &attributes,
    };
    LlmRequest::new(summarize_context(&ctx)).small().named("summarize_nodes.summarize_context")
}

/// The entity with the summary that the model gave.
pub fn with_summary(node: EntityNode, summary: String) -> (r: EntityNode)
    ensures
        r@ == (EntityNodeView { summary: summary@, ..node@ }),
{
    let mut node = node;
    node.summary = summary;
    node
}

/// Of the facts that say the same exactly the first is left: no two that are left say the same,
/// and every fact says the same as one that is left.
pub proof fn law_distinct_facts_say_everything_once(edges: Seq<EntityEdgeView>, i: int)
    requires
        0 <= i < edges.len(),
    ensures
        ({
            let left = distinct_facts(edges);
            &&& exists|j: int| 0 <= j < left.len() && same_fact(#[trigger] left[j], edges[i])
            &&& forall|j: int, k: int|
                0 <= j < k < left.len() ==> !same_fact(#[trigger] left[j], #[trigger] left[k])
            &&& forall|j: int| 0 <= j < left.len() ==> edges.contains(#[trigger] left[j])
        }),
    decreases edges.len(),
{
    let left = distinct_facts(edges);
    let init = edges.drop_last();
    let before = distinct_facts(init);
    if init.len() > 0 {
        law_distinct_facts_say_everything_once(init, if i < init.len() { i } else { 0 });
    }
    assert forall|j: int| 0 <= j < before.len() implies edges.contains(#[trigger] before[j]) by {
        let k = choose|k: int| 0 <= k < init.len() && init[k] == before[j];
        assert(edges[k] == before[j]);
    }
    if said_before(edges, edges.len() - 1, edges.last()) {
        if i == edges.len() - 1 {
            let k = choose|k: int|
                0 <= k < edges.len() - 1 && same_fact(#[trigger] edges[k], edges.last());
            law_distinct_facts_say_everything_once(init, k);
            let j = choose|j: int| 0 <= j < before.len() && same_fact(
                #[trigger] before[j],
                init[k],
            );
            assert(same_fact(left[j], edges[i]));
        } else {
            let j = choose|j: int| 0 <= j < before.len() && same_fact(
                #[trigger] before[j],
                init[i],
            );
            assert(same_fact(left[j], edges[i]));
        }
    } else {
        assert(left[left.len() - 1] == edges.last());
        assert(edges[edges.len() - 1] == edges.last());
        assert forall|j: int, k: int| 0 <= j < k < left.len() implies !same_fact(
            #[trigger] left[j],
            #[trigger] left[k],
        ) by {
            assert(left[j] == before[j]);
            if k == left.len() - 1 {
                let m = choose|m: int| 0 <= m < init.len() && init[m] == before[j];
                assert(edges[m] == before[j]);
                assert(!same_fact(edges[m], edges.last()));
            } else {
                assert(left[k] == before[k]);
            }
        }
        if i == edges.len() - 1 {
            assert(same_fact(left[left.len() - 1], edges[i]));
        } else {
            let j = choose|j: int| 0 <= j < before.len() && same_fact(
                #[trigger] before[j],
                init[i],
            );
            assert(same_fact(left[j], edges[i]));
        }
    }
}

/// A fact that is known already stays what it is: whatever is recorded in its place is the
/// known fact, mentioned by the episode too, and nothing is put an end to.
pub proof fn law_known_fact_is_reused(
    extracted: EntityEdgeView,
    related: Seq<EntityEdgeView>,
    existing: Seq<EntityEdgeView>,
    episode_uuid: Seq<char>,
    now: Timestamp,
    i: int,
)
    requires
        0 <= i < related.len(),
        same_fact(related[i], extracted),
    ensures
        first_step(extracted, related, existing, episode_uuid, now) matches EdgeStepView::Done(r)
            && exists|j: int|
            {
                &&& 0 <= j <= i
                &&& same_fact(#[trigger] related[j], extracted)
                &&& r.resolved == with_episode(related[j], episode_uuid)
                &&& r.resolved.episodes.contains(episode_uuid)
                &&& r.invalidated.len() == 0
            },
{
    let prefix = related.take(i + 1);
    assert(prefix.last() == related[i]);
    assert(prefix.drop_last() =~= related.take(i));
    lemma_first_same_is_first(prefix, extracted);
    lemma_first_same_extends(related, extracted, i + 1);
    let j = choose|j: int|
        0 <= j < prefix.len() && same_fact(#[trigger] prefix[j], extracted) && first_same(
            prefix,
            extracted,
        ) == Some(prefix[j]);
    assert(related[j] == prefix[j]);
    lemma_with_episode_mentions(related[j], episode_uuid);
}

proof fn lemma_first_same_is_first(edges: Seq<EntityEdgeView>, e: EntityEdgeView)
    ensures
        first_same(edges, e) is Some ==> exists|j: int|
            0 <= j < edges.len() && same_fact(#[trigger] edges[j], e) && first_same(edges, e)
                == Some(edges[j]),
    decreases edges.len(),
{
    if edges.len() > 0 {
        let init = edges.drop_last();
        lemma_first_same_is_first(init, e);
        if first_same(init, e) is Some {
            let j = choose|j: int|
                0 <= j < init.len() && same_fact(#[trigger] init[j], e) && first_same(init, e)
                    == Some(init[j]);
            assert(edges[j] == init[j]);
        } else if same_fact(edges.last(), e) {
            assert(same_fact(edges[edges.len() - 1], e));
        }
    }
}

proof fn lemma_with_episode_mentions(e: EntityEdgeView, episode_uuid: Seq<char>)
    ensures
        with_episode(e, episode_uuid).episodes.contains(episode_uuid),
{
    if !e.episodes.contains(episode_uuid) {
        let s = e.episodes.push(episode_uuid);
        assert(s[s.len() - 1] == episode_uuid);
    }
}

/// A fact that the model finds to duplicate a known one takes over that one's identity, text
/// and entities, and is mentioned by the episode too.
pub proof fn law_duplicate_takes_over_the_known_fact(
    extracted: EntityEdgeView,
    related: Seq<EntityEdgeView>,
    existing: Seq<EntityEdgeView>,
    duplicates: Seq<i64>,
    contradicted: Seq<i64>,
    episode_uuid: Seq<char>,
    now: Timestamp,
)
    requires
        first_position(duplicates, related.len()) matches Some(i) && related[i].uuid
            != extracted.uuid,
    ensures
        second_step(
            extracted,
            related,
            existing,
            duplicates,
            contradicted,
            episode_uuid,
            now,
        ) matches EdgeStepView::Done(r) && {
            let known = related[first_position(duplicates, related.len())->0];
            &&& r.resolved.uuid == known.uuid
            &&& r.resolved.fact == known.fact
            &&& r.resolved.source_node_uuid == known.source_node_uuid
            &&& r.resolved.target_node_uuid == known.target_node_uuid
            &&& r.resolved.valid_at == known.valid_at
            &&& r.resolved.episodes.contains(episode_uuid)
        },
{
    let known = related[first_position(duplicates, related.len())->0];
    lemma_with_episode_mentions(known, episode_uuid);
}

/// Facts that contradict each other do not hold at the same time: once a fact without an end is
/// settled, a known fact that it contradicts and that began at another time ended before it began,
/// or began after it ended, either as it was or as it comes out of the resolution.
pub proof fn law_settled_fact_is_apart_from_what_it_contradicts(
    edge: EntityEdgeView,
    candidates: Seq<EntityEdgeView>,
    now: Timestamp,
    i: int,
)
    requires
        0 <= i < candidates.len(),
        edge.valid_at is Some,
        edge.invalid_at is None,
        edge.expired_at is None,
        candidates[i].valid_at is Some,
        candidates[i].valid_at != edge.valid_at,
    ensures
        ({
            let r = settled(edge, candidates, now);
            let closed = temporal::invalidated(candidates[i], r.resolved, now);
            ||| temporal::apart(candidates[i], r.resolved)
            ||| r.invalidated.contains(closed) && temporal::apart(closed, r.resolved)
        }),
{
    let start = edge.valid_at->0;
    let began = candidates[i].valid_at->0;
    let r = settled(edge, candidates, now);
    let closed = temporal::invalidated(candidates[i], r.resolved, now);
    temporal::law_earliest_after_is_earliest(candidates, start, i);
    time::law_instants_are_ordered(start, began);
    if began.before(start) {
        if !temporal::apart(candidates[i], r.resolved) {
            assert(temporal::invalidates(r.resolved, candidates[i]));
            temporal::law_invalidation_closes_the_interval(candidates[i], r.resolved, now);
            temporal::law_candidates_that_are_invalidated_come_out(
                r.resolved,
                candidates,
                now,
                closed,
            );
        }
    } else {
        assert(start.before(began));
        assert(temporal::known_at_or_before(r.resolved.invalid_at, candidates[i].valid_at));
    }
}

} // verus!
