//! The ingestion of an episode.
//!
//! It goes through phases. Each phase holds what the work outside of it needs next, and takes what
//! came of that work into the phase after it: [`Extraction`], [`NodePhase`], [`FactPhase`],
//! [`EdgePhase`], [`SummaryPhase`] and [`IngestBatch`], which is stored and gives the results.
use crate::chronicle::{AddEpisodeRequest, AddEpisodeResults};
use crate::collections::StringMap;
use crate::errors::ChronicleError;
use crate::helpers::RELEVANT_SCHEMA_LIMIT;
use crate::ids;
use crate::pipeline::bulk::{
    self, build_mentions, facts_without_embedding, fill_fact_embeddings, fill_name_embeddings,
    names_without_embedding,
};
use crate::pipeline::edge_ops::{with_summary, EdgeResolutionOutcome};
use crate::pipeline::maintenance::require_episode;
use crate::pipeline::node_ops::NodeResolutionOutcome;
use crate::pipeline::node_resolution;
use crate::pipeline::uuid_map;
use crate::prompts::models::NodeDuplicate;
use crate::text::{self, clone_strings, single};
use crate::time::Timestamp;
use crate::types::{self, Embedding};
use crate::types::community::{CommunityEdge, CommunityNode};
use crate::types::edge::{EntityEdge, EntityEdgeView, EpisodicEdge};
use crate::types::episode::{EpisodicNode, EpisodicNodeView};
use crate::types::node::{EntityNode, EntityNodeView};
pub use crate::pipeline::bulk::resolve_edge_pointers;
use vstd::prelude::*;

verus! {

/// The episode of a request: the stored one where an identifier is given, and a fresh one
/// otherwise. `found` is what is stored under the identifier.
pub fn requested_episode(req: &AddEpisodeRequest, found: Option<EpisodicNode>, now: Timestamp) -> (r:
    Result<EpisodicNode, ChronicleError>)
    ensures
        match req.uuid {
            Some(uuid) => match found {
                Some(e) => r matches Ok(episode) && episode == e,
                None => r matches Err(ChronicleError::EpisodeNotFound { uuid: missing }) && missing@
                    == uuid@,
            },
            None => r matches Ok(episode) && is_requested(episode@, *req, now),
        },
{
    match &req.uuid {
        Some(uuid) => require_episode(found, uuid.as_str()),
        None => Ok(
            EpisodicNode::new(
                req.name.clone(),
                req.group_id.clone(),
                req.source,
                req.source_description.clone(),
                req.episode_body.clone(),
                now,
                req.reference_time,
            ),
        ),
    }
}

/// Holds where `e` is the fresh episode of a request.
pub open spec fn is_requested(e: EpisodicNodeView, req: AddEpisodeRequest, now: Timestamp) -> bool {
    &&& ids::is_random_uuid(e.uuid)
    &&& e == EpisodicNodeView {
        uuid: e.uuid,
        name: req.name@,
        group_id: req.group_id@,
        labels: Seq::empty(),
        source: req.source,
        source_description: req.source_description@,
        content: req.episode_body@,
        entity_edges: Seq::empty(),
        created_at: now,
        valid_at: req.reference_time,
    }
}

/// The facts that an episode changes: what its facts resolved to, and then what they put an end to.
pub fn changed_edges(outcome: EdgeResolutionOutcome) -> (r: Vec<EntityEdge>)
    ensures
        r@ == outcome.resolved_edges@ + outcome.invalidated_edges@,
{
    let mut edges = outcome.resolved_edges;
    let mut more = outcome.invalidated_edges;
    edges.append(&mut more);
    edges
}

/// The episode with the facts that it changed.
pub fn stamp_episode(episode: EpisodicNode, edges: &Vec<EntityEdge>) -> (r: EpisodicNode)
    ensures
        r@ == (EpisodicNodeView {
            entity_edges: types::edge_views(edges@).map_values(|e: EntityEdgeView| e.uuid),
            ..episode@
        }),
{
    let mut episode = episode;
    let mut uuids: Vec<String> = Vec::new();
    let mut i: usize = 0;
    while i < edges.len()
        invariant
            i <= edges@.len(),
            uuids@.len() == i,
            forall|j: int| 0 <= j < i ==> (#[trigger] uuids@[j])@ == edges@[j]@.uuid,
        decreases edges.len() - i,
    {
        uuids.push(edges[i].uuid.clone());
        i += 1;
    }
    assert(text::views(uuids@) =~= types::edge_views(edges@).map_values(|e: EntityEdgeView| e.uuid));
    episode.entity_edges = uuids;
    episode
}

/// How the episodes that give context are found.
#[derive(Debug)]
pub enum PreviousQuery {
    /// By their identifiers.
    Given { uuids: Vec<String> },
    /// The latest ones of some groups up to a time.
    Latest { reference_time: Timestamp, last_n: usize, group_ids: Vec<String> },
}

/// How the episodes that give context to a request are found: those that it names, or else the
/// latest ones of its group.
pub fn previous_query(req: &AddEpisodeRequest) -> (r: PreviousQuery)
    ensures
        match req.previous_episode_uuids {
            Some(named) => r matches PreviousQuery::Given { uuids } && text::views(uuids@) == text::views(
                named@,
            ),
            None => r matches PreviousQuery::Latest { reference_time, last_n, group_ids }
                && reference_time == req.reference_time && last_n == RELEVANT_SCHEMA_LIMIT && text::views(
                group_ids@,
            ) == seq![req.group_id@],
        },
{
    match &req.previous_episode_uuids {
        Some(named) => PreviousQuery::Given { uuids: clone_strings(named) },
        None => PreviousQuery::Latest {
            reference_time: req.reference_time,
            last_n: RELEVANT_SCHEMA_LIMIT,
            group_ids: single(req.group_id.as_str()),
        },
    }
}

/// An episode with the request that it came with.
#[derive(Debug)]
pub struct IngestContext {
    pub req: AddEpisodeRequest,
    pub now: Timestamp,
    /// The episodes that give context.
    pub previous: Vec<EpisodicNode>,
    pub episode: EpisodicNode,
}

/// The entities of the episode are to be extracted.
#[derive(Debug)]
pub struct Extraction {
    pub context: IngestContext,
}

/// The extracted entities are to be resolved.
#[derive(Debug)]
pub struct NodePhase {
    pub context: IngestContext,
    pub extracted: Vec<EntityNode>,
}

/// The facts between the entities as they were extracted are to be extracted.
#[derive(Debug)]
pub struct FactPhase {
    pub context: IngestContext,
    pub extracted: Vec<EntityNode>,
    pub nodes: Vec<EntityNode>,
    pub uuid_map: StringMap<String>,
}

/// The facts are to be resolved.
#[derive(Debug)]
pub struct EdgePhase {
    pub context: IngestContext,
    pub nodes: Vec<EntityNode>,
    pub edges: Vec<EntityEdge>,
}

/// The entities are to be summarized.
#[derive(Debug)]
pub struct SummaryPhase {
    pub context: IngestContext,
    pub nodes: Vec<EntityNode>,
    pub edges: Vec<EntityEdge>,
}

/// Begins the ingestion of an episode. `previous` is what gives context, and `found` is what is
/// stored under the identifier that the request gives.
pub fn begin_ingest(
    req: AddEpisodeRequest,
    previous: Vec<EpisodicNode>,
    found: Option<EpisodicNode>,
    now: Timestamp,
) -> (r: Result<Extraction, ChronicleError>)
    ensures
        match r {
            Ok(e) => {
                &&& e.context.req == req
                &&& e.context.previous == previous
                &&& e.context.now == now
                &&& match req.uuid {
                    Some(_) => found == Some(e.context.episode),
                    None => is_requested(e.context.episode@, req, now),
                }
            },
            Err(e) => {
                &&& req.uuid is Some
                &&& found is None
                &&& e matches ChronicleError::EpisodeNotFound { uuid: missing }
                &&& missing@ == req.uuid->0@
            },
        },
{
    match requested_episode(&req, found, now) {
        Ok(episode) => Ok(Extraction { context: IngestContext { req, now, previous, episode } }),
        Err(e) => Err(e),
    }
}

impl Extraction {
    /// Takes the extracted entities.
    pub fn take_entities(self, extracted: Vec<EntityNode>) -> (r: NodePhase)
        ensures
            r.context == self.context,
            r.extracted == extracted,
    {
        NodePhase { context: self.context, extracted }
    }
}

impl NodePhase {
    /// Takes what the entities resolved to.
    pub fn take_resolution(self, outcome: NodeResolutionOutcome) -> (r: FactPhase)
        ensures
            r.context == self.context,
            r.extracted == self.extracted,
            r.nodes == outcome.nodes,
            r.uuid_map == outcome.uuid_map,
    {
        FactPhase {
            context: self.context,
            extracted: self.extracted,
            nodes: outcome.nodes,
            uuid_map: outcome.uuid_map,
        }
    }
}

impl FactPhase {
    /// Takes the extracted facts, and points them at what their entities resolved to.
    pub fn take_facts(self, facts: Vec<EntityEdge>) -> (r: EdgePhase)
        ensures
            r.context == self.context,
            r.nodes == self.nodes,
            types::edge_views(r.edges@) == types::edge_views(facts@).map_values(
                |e: EntityEdgeView| bulk::pointed(e, uuid_map::text_map(self.uuid_map@)),
            ),
    {
        let mut edges = facts;
        resolve_edge_pointers(&mut edges, &self.uuid_map);
        EdgePhase { context: self.context, nodes: self.nodes, edges }
    }
}

impl EdgePhase {
    /// Takes what the facts resolved to, and what they put an end to.
    pub fn take_outcome(self, outcome: EdgeResolutionOutcome) -> (r: SummaryPhase)
        ensures
            r.context == self.context,
            r.nodes == self.nodes,
            r.edges@ == outcome.resolved_edges@ + outcome.invalidated_edges@,
    {
        SummaryPhase { context: self.context, nodes: self.nodes, edges: changed_edges(outcome) }
    }
}

/// The entities with their new summaries, as far as these reach.
pub open spec fn summarized(nodes: Seq<EntityNodeView>, summaries: Seq<Seq<char>>) -> Seq<EntityNodeView> {
    nodes.map(
        |i: int, n: EntityNodeView|
            if i < summaries.len() {
                EntityNodeView { summary: summaries[i], ..n }
            } else {
                n
            },
    )
}

/// Gives the entities their new summaries, in order.
pub fn apply_summaries(nodes: &Vec<EntityNode>, summaries: &Vec<String>) -> (r: Vec<EntityNode>)
    ensures
        types::node_views(r@) == summarized(types::node_views(nodes@), text::views(summaries@)),
{
    let mut out: Vec<EntityNode> = Vec::new();
    let mut i: usize = 0;
    while i < nodes.len()
        invariant
            i <= nodes@.len(),
            out@.len() == i,
            forall|j: int|
                0 <= j < i ==> (#[trigger] out@[j])@ == summarized(
                    types::node_views(nodes@),
                    text::views(summaries@),
                )[j],
        decreases nodes.len() - i,
    {
        let node = nodes[i].clone();
        if i < summaries.len() {
            out.push(with_summary(node, summaries[i].clone()));
        } else {
            out.push(node);
        }
        i += 1;
    }
    assert(
        types::node_views(out@) =~= summarized(types::node_views(nodes@), text::views(summaries@))
    );
    out
}

/// Holds where mentions lead from an episode to each of the entities, in order, and the episode
/// lists the facts.
pub open spec fn is_whole(
    episode: EpisodicNodeView,
    mentions: Seq<EpisodicEdge>,
    nodes: Seq<EntityNodeView>,
    edges: Seq<EntityEdgeView>,
    group_id: Seq<char>,
    now: Timestamp,
) -> bool {
    &&& episode.entity_edges == edges.map_values(|e: EntityEdgeView| e.uuid)
    &&& mentions.len() == nodes.len()
    &&& forall|i: int|
        0 <= i < nodes.len() ==> bulk::is_mention(
            (#[trigger] mentions[i])@,
            episode.uuid,
            nodes[i].uuid,
            group_id,
            now,
        )
}

/// What is stored of an episode.
#[derive(Debug)]
pub struct IngestBatch {
    req: AddEpisodeRequest,
    now: Timestamp,
    episode: EpisodicNode,
    mentions: Vec<EpisodicEdge>,
    nodes: Vec<EntityNode>,
    edges: Vec<EntityEdge>,
}

/// [`IngestBatch`] as plain values.
pub struct IngestBatchView {
    pub req: AddEpisodeRequest,
    pub now: Timestamp,
    pub episode: EpisodicNodeView,
    pub mentions: Seq<EpisodicEdge>,
    pub nodes: Seq<EntityNodeView>,
    pub edges: Seq<EntityEdgeView>,
}

impl View for IngestBatch {
    type V = IngestBatchView;

    closed spec fn view(&self) -> IngestBatchView {
        IngestBatchView {
            req: self.req,
            now: self.now,
            episode: self.episode@,
            mentions: self.mentions@,
            nodes: types::node_views(self.nodes@),
            edges: types::edge_views(self.edges@),
        }
    }
}

impl SummaryPhase {
    /// Takes the new summaries, mentions the entities in the episode and lists the facts in it.
    pub fn take_summaries(self, summaries: &Vec<String>) -> (r: IngestBatch)
        ensures
            r@.req == self.context.req,
            r@.now == self.context.now,
            r@.nodes == summarized(types::node_views(self.nodes@), text::views(summaries@)),
            r@.edges == types::edge_views(self.edges@),
            r@.episode == (EpisodicNodeView {
                entity_edges: types::edge_views(self.edges@).map_values(|e: EntityEdgeView| e.uuid),
                ..self.context.episode@
            }),
            is_whole(
                r@.episode,
                r@.mentions,
                r@.nodes,
                r@.edges,
                r@.req.group_id@,
                r@.now,
            ),
    {
        let nodes = apply_summaries(&self.nodes, summaries);
        let context = self.context;
        let edges = self.edges;
        let mentions = build_mentions(
            context.episode.uuid.as_str(),
            &nodes,
            context.req.group_id.as_str(),
            context.now,
        );
        let episode = stamp_episode(context.episode, &edges);
        proof {
            assert forall|i: int| 0 <= i < types::node_views(nodes@).len() implies bulk::is_mention(
                (#[trigger] mentions@[i])@,
                episode@.uuid,
                types::node_views(nodes@)[i].uuid,
                context.req.group_id@,
                context.now,
            ) by {
                assert(types::node_views(nodes@)[i] == nodes@[i]@);
            }
        }
        IngestBatch { req: context.req, now: context.now, episode, mentions, nodes, edges }
    }
}

impl IngestBatch {
    #[verifier::type_invariant]
    spec fn valid(self) -> bool {
        is_whole(
            self.episode@,
            self.mentions@,
            types::node_views(self.nodes@),
            types::edge_views(self.edges@),
            self.req.group_id@,
            self.now,
        )
    }

    /// The names to embed: those of the entities without an embedding.
    pub fn names(&self) -> (r: Vec<String>)
        ensures
            text::views(r@) == bulk::unembedded_names(self@.nodes),
    {
        names_without_embedding(&self.nodes)
    }

    /// The texts to embed: those of the facts without an embedding.
    pub fn facts(&self) -> (r: Vec<String>)
        ensures
            text::views(r@) == bulk::unembedded_facts(self@.edges),
    {
        facts_without_embedding(&self.edges)
    }

    /// Takes the embeddings of the names and of the facts.
    pub fn take_embeddings(self, names: &Vec<Embedding>, facts: &Vec<Embedding>) -> (r: IngestBatch)
        ensures
            r@ == (IngestBatchView {
                nodes: Seq::new(
                    self@.nodes.len(),
                    |i: int| bulk::embedded_name(self@.nodes, names@, i),
                ),
                edges: Seq::new(
                    self@.edges.len(),
                    |i: int| bulk::embedded_fact(self@.edges, facts@, 0, i),
                ),
                ..self@
            }),
    {
        proof {
            use_type_invariant(&self);
        }
        let ghost before = self@;
        let mut nodes = self.nodes;
        let mut edges = self.edges;
        fill_name_embeddings(&mut nodes, names);
        let _ = fill_fact_embeddings(&mut edges, facts, 0);
        proof {
            assert(before.nodes.len() == self.nodes@.len());
            assert(before.edges.len() == self.edges@.len());
            assert(types::edge_views(edges@).map_values(|e: EntityEdgeView| e.uuid)
                =~= before.edges.map_values(|e: EntityEdgeView| e.uuid));
            assert forall|i: int| 0 <= i < types::node_views(nodes@).len() implies bulk::is_mention(
                (#[trigger] self.mentions@[i])@,
                self.episode@.uuid,
                types::node_views(nodes@)[i].uuid,
                self.req.group_id@,
                self.now,
            ) by {
                assert(types::node_views(nodes@)[i].uuid == before.nodes[i].uuid);
            }
        }
        IngestBatch {
            req: self.req,
            now: self.now,
            episode: self.episode,
            mentions: self.mentions,
            nodes,
            edges,
        }
    }

    /// The request.
    pub fn request(&self) -> (r: &AddEpisodeRequest)
        ensures
            *r == self@.req,
    {
        &self.req
    }

    /// When the ingestion began.
    pub fn now(&self) -> (r: Timestamp)
        ensures
            r == self@.now,
    {
        self.now
    }

    /// The episode, which is stored first.
    pub fn episode(&self) -> (r: &EpisodicNode)
        ensures
            r@ == self@.episode,
    {
        &self.episode
    }

    /// The entities, which are stored after the episode.
    pub fn nodes(&self) -> (r: &Vec<EntityNode>)
        ensures
            types::node_views(r@) == self@.nodes,
    {
        &self.nodes
    }

    /// The facts, which are stored after the entities.
    pub fn edges(&self) -> (r: &Vec<EntityEdge>)
        ensures
            types::edge_views(r@) == self@.edges,
    {
        &self.edges
    }

    /// The mentions, which are stored last: one of each entity in the episode, in order.
    pub fn mentions(&self) -> (r: &Vec<EpisodicEdge>)
        ensures
            r@ == self@.mentions,
            is_whole(
                self@.episode,
                r@,
                self@.nodes,
                self@.edges,
                self@.req.group_id@,
                self@.now,
            ),
    {
        proof {
            use_type_invariant(self);
        }
        &self.mentions
    }

    /// The results, with the communities that were updated and the memberships that were added.
    pub fn finish(self, communities: Vec<CommunityNode>, community_edges: Vec<CommunityEdge>) -> (r:
        AddEpisodeResults)
        ensures
            r.episode@ == self@.episode,
            r.episodic_edges@ == self@.mentions,
            types::node_views(r.nodes@) == self@.nodes,
            types::edge_views(r.edges@) == self@.edges,
            r.communities == communities,
            r.community_edges == community_edges,
            is_whole(
                r.episode@,
                r.episodic_edges@,
                types::node_views(r.nodes@),
                types::edge_views(r.edges@),
                self@.req.group_id@,
                self@.now,
            ),
    {
        proof {
            use_type_invariant(&self);
        }
        AddEpisodeResults {
            episode: self.episode,
            episodic_edges: self.mentions,
            nodes: self.nodes,
            edges: self.edges,
            communities,
            community_edges,
        }
    }
}

/// An ingestion leaves no fact without its ends: a fact between two of the extracted entities ends
/// up between what these two resolved to.
pub proof fn law_facts_lead_between_resolved_entities(
    extracted: Seq<EntityNodeView>,
    candidates: Seq<Seq<EntityNodeView>>,
    replies: Seq<NodeDuplicate>,
    fact: EntityEdgeView,
    i: int,
    j: int,
)
    requires
        node_resolution::distinct_identifiers(extracted),
        extracted.len() <= usize::MAX,
        0 <= i < extracted.len(),
        0 <= j < extracted.len(),
        fact.source_node_uuid == extracted[i].uuid,
        fact.target_node_uuid == extracted[j].uuid,
    ensures
        ({
            let outcome = node_resolution::resolution(extracted, candidates, replies);
            let pointed = bulk::pointed(fact, outcome.uuid_map);
            &&& pointed.source_node_uuid == outcome.nodes[i].uuid
            &&& pointed.target_node_uuid == outcome.nodes[j].uuid
            &&& pointed.uuid == fact.uuid
            &&& pointed.fact == fact.fact
        }),
{
    node_resolution::law_resolution_accounts_for_every_entity(extracted, candidates, replies, i);
    node_resolution::law_resolution_accounts_for_every_entity(extracted, candidates, replies, j);
}

/// A fresh episode says what the request says: its text, where it comes from and when it happened. It
/// was made now, and no fact is from it yet.
pub proof fn law_fresh_episode_is_as_requested(
    e: EpisodicNodeView,
    req: AddEpisodeRequest,
    now: Timestamp,
)
    requires
        is_requested(e, req, now),
    ensures
        e.content == req.episode_body@,
        e.name == req.name@,
        e.group_id == req.group_id@,
        e.source == req.source,
        e.source_description == req.source_description@,
        e.valid_at == req.reference_time,
        e.created_at == now,
        e.entity_edges.len() == 0,
        e.labels.len() == 0,
{
}

/// An ingested episode lists its facts by their identifiers, in order, and a mention leads from it to
/// each of its entities.
pub proof fn law_ingested_episode_has_its_parts(
    episode: EpisodicNodeView,
    mentions: Seq<EpisodicEdge>,
    nodes: Seq<EntityNodeView>,
    edges: Seq<EntityEdgeView>,
    group_id: Seq<char>,
    now: Timestamp,
    i: int,
)
    requires
        is_whole(episode, mentions, nodes, edges, group_id, now),
    ensures
        episode.entity_edges.len() == edges.len(),
        0 <= i < edges.len() ==> episode.entity_edges[i] == edges[i].uuid,
        mentions.len() == nodes.len(),
        0 <= i < nodes.len() ==> mentions[i].source_node_uuid@ == episode.uuid
            && mentions[i].target_node_uuid@ == nodes[i].uuid && mentions[i].group_id@ == group_id
            && mentions[i].created_at == now,
{
    if 0 <= i < nodes.len() {
        let m = mentions[i]@;
        assert(bulk::is_mention(m, episode.uuid, nodes[i].uuid, group_id, now));
    }
}

} // verus!
