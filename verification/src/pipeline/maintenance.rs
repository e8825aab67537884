//! Changes of a graph that exists: single facts added, episodes removed.
//!
//! The addition of a fact goes through phases. Each phase holds what the work outside of it needs
//! next, and takes what came of that work into the phase after it: [`TripletDraft`],
//! [`TripletEnds`], [`TripletEdge`] and [`TripletPools`], which gives the results.
use crate::collections::{self, StringMap, StringSet};
use crate::errors::ChronicleError;
use crate::ids::{self, new_uuid};
use crate::json::{clone_attributes, extend_attributes};
use crate::pipeline::edge_ops::{self, begin_edge_resolution, EdgeResolution, EdgeStep};
use crate::selection;
use crate::text::{self, owned, replace_char, str_eq};
use crate::time::{utc_now, Timestamp};
use crate::types::{self, Embedding};
use crate::types::edge::{EntityEdge, EntityEdgeView};
use crate::types::episode::{EpisodeType, EpisodicNode, EpisodicNodeView};
use crate::types::node::{EntityNode, EntityNodeView};
use crate::types::saga::SagaNode;
use vstd::prelude::*;

verus! {

/// What the addition of a fact between two entities stored.
#[derive(Debug)]
pub struct AddTripletResults {
    /// The source and the target.
    pub nodes: Vec<EntityNode>,
    /// The fact, and the facts that it puts an end to.
    pub edges: Vec<EntityEdge>,
}

/// Holds where `e` is an empty episode at a time.
pub open spec fn is_empty_episode(e: EpisodicNodeView, group_id: Seq<char>, valid_at: Timestamp) -> bool {
    &&& ids::is_random_uuid(e.uuid)
    &&& e == EpisodicNodeView {
        uuid: e.uuid,
        name: Seq::empty(),
        group_id,
        labels: Seq::empty(),
        source: EpisodeType::Text,
        source_description: Seq::empty(),
        content: Seq::empty(),
        entity_edges: Seq::empty(),
        created_at: e.created_at,
        valid_at,
    }
}

/// The empty episode that a fact without an episode is resolved with. Its time is the beginning of
/// the fact, or now where that is not known.
pub fn synthetic_episode(edge: &EntityEdge, now: Timestamp) -> (r: EpisodicNode)
    ensures
        is_empty_episode(
            r@,
            edge@.group_id,
            match edge@.valid_at {
                Some(t) => t,
                None => now,
            },
        ),
{
    let valid_at = match edge.valid_at {
        Some(t) => t,
        None => now,
    };
    let episode = EpisodicNode::new(
        String::new(),
        edge.group_id.clone(),
        EpisodeType::Text,
        String::new(),
        String::new(),
        utc_now(),
        valid_at,
    );
    assert(episode@.name =~= Seq::<char>::empty());
    assert(episode@.source_description =~= Seq::<char>::empty());
    assert(episode@.content =~= Seq::<char>::empty());
    episode
}

/// Which end of a fact an entity is.
#[derive(Clone, Copy, Debug, PartialEq, Eq, Structural)]
pub enum TripletEnd {
    Source,
    Target,
}

/// The message where the resolution of an entity has no result.
pub open spec fn empty_resolution(end: TripletEnd) -> Seq<char> {
    match end {
        TripletEnd::Source => "source node resolution empty"@,
        TripletEnd::Target => "target node resolution empty"@,
    }
}

/// The entity at an end of a fact: the first that its resolution has.
pub fn first_resolved(resolved: &Vec<EntityNode>, end: TripletEnd) -> (r: Result<
    EntityNode,
    ChronicleError,
>)
    ensures
        match r {
            Ok(node) => resolved@.len() > 0 && node@ == resolved@[0]@,
            Err(e) => resolved@.len() == 0 && (e matches ChronicleError::InvalidInput(m) && m@
                == empty_resolution(end)),
        },
{
    if resolved.len() > 0 {
        return Ok(resolved[0].clone());
    }
    let message = match end {
        TripletEnd::Source => owned("source node resolution empty"),
        TripletEnd::Target => owned("target node resolution empty"),
    };
    Err(ChronicleError::InvalidInput(message))
}

/// Holds where labels are those of either list, each once, in increasing order.
pub open spec fn is_union(
    labels: Seq<Seq<char>>,
    base: Seq<Seq<char>>,
    extra: Seq<Seq<char>>,
) -> bool {
    collections::strictly_sorted(labels) && labels.to_set() == base.to_set().union(extra.to_set())
}

fn insert_all(set: &mut StringSet, strings: &Vec<String>)
    ensures
        final(set)@ == old(set)@.union(text::views(strings@).to_set()),
{
    let ghost start = set@;
    let ghost all = text::views(strings@);
    let mut i: usize = 0;
    assert(set@ =~= start.union(all.take(0).to_set()));
    while i < strings.len()
        invariant
            i <= strings@.len(),
            all == text::views(strings@),
            set@ == start.union(all.take(i as int).to_set()),
        decreases strings.len() - i,
    {
        let _ = set.insert(strings[i].clone());
        proof {
            let s = strings@[i as int]@;
            let before = all.take(i as int);
            let after = all.take(i as int + 1);
            assert(after =~= before.push(s));
            assert forall|x: Seq<char>| after.to_set().contains(x) == before.to_set().insert(
                s,
            ).contains(x) by {
                if before.contains(x) {
                    let k = choose|k: int| 0 <= k < before.len() && before[k] == x;
                    assert(after[k] == x);
                }
                if x == s {
                    assert(after[i as int] == x);
                }
                if after.contains(x) {
                    let k = choose|k: int| 0 <= k < after.len() && after[k] == x;
                    if k < i {
                        assert(before[k] == x);
                    }
                }
            }
            assert(set@ =~= start.union(after.to_set()));
        }
        i += 1;
    }
    assert(all.take(all.len() as int) =~= all);
}

/// The labels of either list, each once, in increasing order.
pub fn union_labels(base: &Vec<String>, extra: &Vec<String>) -> (r: Vec<String>)
    ensures
        is_union(text::views(r@), text::views(base@), text::views(extra@)),
{
    let mut set = StringSet::new();
    insert_all(&mut set, base);
    insert_all(&mut set, extra);
    let n = set.len();
    assert(set@ =~= text::views(base@).to_set().union(text::views(extra@).to_set()));
    set.to_vec()
}

/// Holds where an entity is a known one with what a caller says of it: more attributes, another
/// summary where the caller gives one, and more labels.
pub open spec fn is_merged(r: EntityNodeView, known: EntityNodeView, given: EntityNodeView) -> bool {
    &&& r == EntityNodeView {
        attributes: known.attributes.union_prefer_right(given.attributes),
        summary: if given.summary.len() == 0 {
            known.summary
        } else {
            given.summary
        },
        labels: r.labels,
        ..known
    }
    &&& if given.labels.len() == 0 {
        r.labels == known.labels
    } else {
        is_union(r.labels, known.labels, given.labels)
    }
}

/// Merges what a caller says of an entity into the known one.
pub fn merge_node(known: EntityNode, given: &EntityNode) -> (r: EntityNode)
    ensures
        is_merged(r@, known@, given@),
{
    let mut node = known;
    let mut attributes = clone_attributes(&node.attributes);
    extend_attributes(&mut attributes, &given.attributes);
    node.attributes = attributes;
    if !given.summary.as_str().is_empty() {
        node.summary = given.summary.clone();
    }
    assert(given@.labels.len() == given.labels@.len());
    if given.labels.len() > 0 {
        let labels = union_labels(&node.labels, &given.labels);
        node.labels = labels;
    }
    node
}

/// Holds where a fact is stored under the same identifier between other entities.
pub open spec fn is_taken(
    existing: Option<EntityEdgeView>,
    source: Seq<char>,
    target: Seq<char>,
) -> bool {
    existing matches Some(e) && (e.source_node_uuid != source || e.target_node_uuid != target)
}

/// The view of an optional fact.
pub open spec fn opt_edge(e: Option<EntityEdge>) -> Option<EntityEdgeView> {
    match e {
        Some(v) => Some(v@),
        None => None,
    }
}

/// Points a fact at its entities. Where a fact is stored under the same identifier between other
/// entities, it gets a new one, so that the stored fact is not written over.
pub fn attach_edge(edge: EntityEdge, source: &str, target: &str, existing: &Option<EntityEdge>) -> (r:
    EntityEdge)
    ensures
        r@ == (EntityEdgeView {
            uuid: r@.uuid,
            source_node_uuid: source@,
            target_node_uuid: target@,
            ..edge@
        }),
        if is_taken(opt_edge(*existing), source@, target@) {
            ids::is_random_uuid(r@.uuid)
        } else {
            r@.uuid == edge@.uuid
        },
{
    let mut edge = edge;
    edge.source_node_uuid = owned(source);
    edge.target_node_uuid = owned(target);
    match existing {
        Some(e) => {
            if !str_eq(e.source_node_uuid.as_str(), source) || !str_eq(
                e.target_node_uuid.as_str(),
                target,
            ) {
                edge.uuid = new_uuid();
            }
        },
        None => {},
    }
    edge
}

/// Puts the results of an addition together.
pub fn triplet_results(source: EntityNode, target: EntityNode, resolution: EdgeResolution) -> (r:
    AddTripletResults)
    ensures
        types::node_views(r.nodes@) == seq![source@, target@],
        types::edge_views(r.edges@) == seq![resolution@.resolved] + resolution@.invalidated,
{
    let ghost first = resolution.resolved@;
    let ghost rest = resolution.invalidated@;
    let mut nodes: Vec<EntityNode> = Vec::new();
    nodes.push(source);
    nodes.push(target);
    let mut edges: Vec<EntityEdge> = Vec::new();
    edges.push(resolution.resolved);
    let mut invalidated = resolution.invalidated;
    edges.append(&mut invalidated);
    assert(types::node_views(nodes@) =~= seq![source@, target@]);
    assert(types::edge_views(edges@) =~= seq![first] + types::edge_views(rest));
    AddTripletResults { nodes, edges }
}

/// A fact between two entities as a caller gives it.
#[derive(Debug)]
pub struct TripletDraft {
    pub source: EntityNode,
    pub edge: EntityEdge,
    pub target: EntityNode,
}

/// The text of a name or of a fact that is embedded: on one line, and none where there is an
/// embedding already.
pub open spec fn text_to_embed(text: Seq<char>, embedding: Option<Seq<u32>>) -> Option<Seq<char>> {
    match embedding {
        Some(_) => None,
        None => Some(text::replaced(text, '\n', " "@)),
    }
}

fn embed_text(text: &str, embedding: &Option<Embedding>) -> (r: Option<String>)
    ensures
        text::opt_view(r) == text_to_embed(text@, types::embedding_view(*embedding)),
{
    match embedding {
        Some(_) => None,
        None => Some(replace_char(text, '\n', " ")),
    }
}

/// The embedding that is there, or else the one that came.
pub open spec fn embedding_or(have: Option<Seq<u32>>, came: Option<Seq<u32>>) -> Option<Seq<u32>> {
    match have {
        Some(e) => Some(e),
        None => came,
    }
}

fn keep_embedding(have: Option<Embedding>, came: Option<Embedding>) -> (r: Option<Embedding>)
    ensures
        types::embedding_view(r) == embedding_or(
            types::embedding_view(have),
            types::embedding_view(came),
        ),
{
    match have {
        Some(e) => Some(e),
        None => came,
    }
}

impl TripletDraft {
    /// The name of the source to embed.
    pub fn source_text(&self) -> (r: Option<String>)
        ensures
            text::opt_view(r) == text_to_embed(self.source@.name, self.source@.name_embedding),
    {
        embed_text(self.source.name.as_str(), &self.source.name_embedding)
    }

    /// The name of the target to embed.
    pub fn target_text(&self) -> (r: Option<String>)
        ensures
            text::opt_view(r) == text_to_embed(self.target@.name, self.target@.name_embedding),
    {
        embed_text(self.target.name.as_str(), &self.target.name_embedding)
    }

    /// The text of the fact to embed.
    pub fn fact_text(&self) -> (r: Option<String>)
        ensures
            text::opt_view(r) == text_to_embed(self.edge@.fact, self.edge@.fact_embedding),
    {
        embed_text(self.edge.fact.as_str(), &self.edge.fact_embedding)
    }

    /// Takes the embeddings, each where there was none.
    pub fn take_embeddings(
        self,
        source: Option<Embedding>,
        target: Option<Embedding>,
        fact: Option<Embedding>,
        now: Timestamp,
    ) -> (r: TripletEnds)
        ensures
            r.source@ == (EntityNodeView {
                name_embedding: embedding_or(
                    self.source@.name_embedding,
                    types::embedding_view(source),
                ),
                ..self.source@
            }),
            r.target@ == (EntityNodeView {
                name_embedding: embedding_or(
                    self.target@.name_embedding,
                    types::embedding_view(target),
                ),
                ..self.target@
            }),
            r.edge@ == (EntityEdgeView {
                fact_embedding: embedding_or(
                    self.edge@.fact_embedding,
                    types::embedding_view(fact),
                ),
                ..self.edge@
            }),
            is_empty_episode(
                r.episode@,
                self.edge@.group_id,
                match self.edge@.valid_at {
                    Some(t) => t,
                    None => now,
                },
            ),
    {
        let mut first = self.source;
        first.name_embedding = keep_embedding(first.name_embedding, source);
        let mut second = self.target;
        second.name_embedding = keep_embedding(second.name_embedding, target);
        let mut edge = self.edge;
        edge.fact_embedding = keep_embedding(edge.fact_embedding, fact);
        let episode = synthetic_episode(&edge, now);
        TripletEnds { source: first, edge, target: second, episode }
    }
}

/// The two entities are to be looked up by their identifiers, and resolved where they are not
/// stored.
#[derive(Debug)]
pub struct TripletEnds {
    pub source: EntityNode,
    pub edge: EntityEdge,
    pub target: EntityNode,
    /// What the entities and the fact are resolved with.
    pub episode: EpisodicNode,
}

/// What was found for an entity.
#[derive(Debug)]
pub enum FoundEnd {
    /// It is stored under its identifier.
    Stored(EntityNode),
    /// What its resolution has.
    Resolved(Vec<EntityNode>),
}

/// The entity that was found; none where its resolution has nothing.
pub open spec fn known_end(found: FoundEnd) -> Option<EntityNodeView> {
    match found {
        FoundEnd::Stored(node) => Some(node@),
        FoundEnd::Resolved(nodes) => if nodes@.len() == 0 {
            None
        } else {
            Some(nodes@[0]@)
        },
    }
}

fn take_end(found: FoundEnd, end: TripletEnd) -> (r: Result<EntityNode, ChronicleError>)
    ensures
        match r {
            Ok(node) => known_end(found) == Some(node@),
            Err(e) => known_end(found) is None && (e matches ChronicleError::InvalidInput(m) && m@
                == empty_resolution(end)),
        },
{
    match found {
        FoundEnd::Stored(node) => Ok(node),
        FoundEnd::Resolved(nodes) => first_resolved(&nodes, end),
    }
}

impl TripletEnds {
    /// Takes what was found for the two entities, and merges what the caller says of them into it.
    pub fn take_ends(self, source: FoundEnd, target: FoundEnd) -> (r: Result<
        TripletEdge,
        ChronicleError,
    >)
        ensures
            match r {
                Ok(next) => {
                    &&& known_end(source) is Some
                    &&& known_end(target) is Some
                    &&& is_merged(next.source@, known_end(source)->0, self.source@)
                    &&& is_merged(next.target@, known_end(target)->0, self.target@)
                    &&& next.edge == self.edge
                    &&& next.episode == self.episode
                },
                Err(e) => {
                    &&& e matches ChronicleError::InvalidInput(m)
                    &&& if known_end(source) is None {
                        m@ == empty_resolution(TripletEnd::Source)
                    } else {
                        known_end(target) is None && m@ == empty_resolution(TripletEnd::Target)
                    }
                },
            },
    {
        let known_source = match take_end(source, TripletEnd::Source) {
            Ok(node) => node,
            Err(e) => return Err(e),
        };
        let known_target = match take_end(target, TripletEnd::Target) {
            Ok(node) => node,
            Err(e) => return Err(e),
        };
        Ok(
            TripletEdge {
                source: merge_node(known_source, &self.source),
                target: merge_node(known_target, &self.target),
                edge: self.edge,
                episode: self.episode,
            },
        )
    }
}

/// What is stored under the identifier of the fact is to be looked up.
#[derive(Debug)]
pub struct TripletEdge {
    pub source: EntityNode,
    pub target: EntityNode,
    pub edge: EntityEdge,
    pub episode: EpisodicNode,
}

impl TripletEdge {
    /// Takes what is stored under the identifier of the fact, and points the fact at its entities.
    pub fn take_existing(self, existing: Option<EntityEdge>) -> (r: TripletPools)
        ensures
            r.source == self.source,
            r.target == self.target,
            r.episode == self.episode,
            r.edge@ == (EntityEdgeView {
                uuid: r.edge@.uuid,
                source_node_uuid: self.source@.uuid,
                target_node_uuid: self.target@.uuid,
                ..self.edge@
            }),
            if is_taken(opt_edge(existing), self.source@.uuid, self.target@.uuid) {
                ids::is_random_uuid(r.edge@.uuid)
            } else {
                r.edge@.uuid == self.edge@.uuid
            },
    {
        let edge = attach_edge(
            self.edge,
            self.source.uuid.as_str(),
            self.target.uuid.as_str(),
            &existing,
        );
        TripletPools { source: self.source, target: self.target, edge, episode: self.episode }
    }
}

/// The facts between the two entities are to be found, those of them that are like the fact, and
/// all that are like it; then the fact is to be resolved.
#[derive(Debug)]
pub struct TripletPools {
    pub source: EntityNode,
    pub target: EntityNode,
    pub edge: EntityEdge,
    pub episode: EpisodicNode,
}

impl TripletPools {
    /// The first step in the resolution of the fact. `related` is what is like it among the facts
    /// between the two entities, and `existing` among all.
    pub fn resolve(&self, related: Vec<EntityEdge>, existing: Vec<EntityEdge>, now: Timestamp) -> (r:
        EdgeStep)
        ensures
            r@ == edge_ops::first_step(
                self.edge@,
                types::edge_views(related@),
                types::edge_views(existing@),
                self.episode@.uuid,
                now,
            ),
    {
        begin_edge_resolution(
            self.edge.clone(),
            related,
            existing,
            self.episode.uuid.as_str(),
            now,
        )
    }

    /// Takes what the fact resolved to.
    pub fn take_resolution(self, resolution: EdgeResolution) -> (r: AddTripletResults)
        ensures
            types::node_views(r.nodes@) == seq![self.source@, self.target@],
            types::edge_views(r.edges@) == seq![resolution@.resolved] + resolution@.invalidated,
    {
        triplet_results(self.source, self.target, resolution)
    }
}

/// The episode that was asked for, or the error that there is none.
pub fn require_episode(found: Option<EpisodicNode>, uuid: &str) -> (r: Result<
    EpisodicNode,
    ChronicleError,
>)
    ensures
        match found {
            Some(e) => r matches Ok(episode) && episode == e,
            None => r matches Err(ChronicleError::EpisodeNotFound { uuid: missing }) && missing@
                == uuid@,
        },
{
    match found {
        Some(e) => Ok(e),
        None => Err(ChronicleError::EpisodeNotFound { uuid: owned(uuid) }),
    }
}

/// The saga that was asked for, or the error that there is none.
pub fn require_saga(found: Option<SagaNode>, uuid: &str) -> (r: Result<SagaNode, ChronicleError>)
    ensures
        match found {
            Some(s) => r matches Ok(saga) && saga == s,
            None => r matches Err(ChronicleError::NodeNotFound { uuid: missing }) && missing@
                == uuid@,
        },
{
    match found {
        Some(s) => Ok(s),
        None => Err(ChronicleError::NodeNotFound { uuid: owned(uuid) }),
    }
}

/// Holds where a fact goes when an episode goes: the episode is the first that mentions it.
pub open spec fn made_by(e: EntityEdgeView, episode_uuid: Seq<char>) -> bool {
    e.episodes.len() > 0 && e.episodes[0] == episode_uuid
}

/// The identifiers of the facts that go when an episode goes, in order.
pub open spec fn facts_made_by(edges: Seq<EntityEdgeView>, episode_uuid: Seq<char>) -> Seq<Seq<char>>
    decreases edges.len(),
{
    if edges.len() == 0 {
        Seq::empty()
    } else if made_by(edges.last(), episode_uuid) {
        facts_made_by(edges.drop_last(), episode_uuid).push(edges.last().uuid)
    } else {
        facts_made_by(edges.drop_last(), episode_uuid)
    }
}

/// The facts that go when an episode goes: those that it was the first to mention.
pub fn edges_to_delete(edges: &Vec<EntityEdge>, episode_uuid: &str) -> (r: Vec<String>)
    ensures
        text::views(r@) == facts_made_by(types::edge_views(edges@), episode_uuid@),
{
    let ghost all = types::edge_views(edges@);
    let mut out: Vec<String> = Vec::new();
    let mut i: usize = 0;
    assert(text::views(out@) =~= facts_made_by(all.take(0), episode_uuid@));
    while i < edges.len()
        invariant
            i <= edges@.len(),
            all == types::edge_views(edges@),
            text::views(out@) == facts_made_by(all.take(i as int), episode_uuid@),
        decreases edges.len() - i,
    {
        let e = &edges[i];
        proof {
            assert(all.take(i as int + 1).drop_last() =~= all.take(i as int));
            assert(all.take(i as int + 1).last() == e@);
            assert(e@.episodes.len() == e.episodes@.len());
            if e.episodes@.len() > 0 {
                assert(e@.episodes[0] == e.episodes@[0]@);
            }
        }
        if e.episodes.len() > 0 && str_eq(e.episodes[0].as_str(), episode_uuid) {
            let ghost before = out@;
            out.push(e.uuid.clone());
            assert(text::views(out@) =~= text::views(before).push(e@.uuid));
        }
        i += 1;
    }
    assert(all.take(all.len() as int) =~= all);
    out
}

/// The identifiers of the entities that one episode alone mentions, in order.
pub open spec fn mentioned_once(nodes: Seq<EntityNodeView>, counts: Map<Seq<char>, u64>) -> Seq<Seq<char>>
    decreases nodes.len(),
{
    if nodes.len() == 0 {
        Seq::empty()
    } else {
        let before = mentioned_once(nodes.drop_last(), counts);
        let uuid = nodes.last().uuid;
        if counts.dom().contains(uuid) && counts[uuid] == 1 {
            before.push(uuid)
        } else {
            before
        }
    }
}

/// The entities that go when an episode goes: those of its entities that no other mentions.
pub fn nodes_to_delete(nodes: &Vec<EntityNode>, mention_counts: &StringMap<u64>) -> (r: Vec<String>)
    ensures
        text::views(r@) == mentioned_once(types::node_views(nodes@), mention_counts@),
{
    let ghost all = types::node_views(nodes@);
    let mut out: Vec<String> = Vec::new();
    let mut i: usize = 0;
    assert(text::views(out@) =~= mentioned_once(all.take(0), mention_counts@));
    while i < nodes.len()
        invariant
            i <= nodes@.len(),
            all == types::node_views(nodes@),
            text::views(out@) == mentioned_once(all.take(i as int), mention_counts@),
        decreases nodes.len() - i,
    {
        proof {
            assert(all.take(i as int + 1).drop_last() =~= all.take(i as int));
            assert(all.take(i as int + 1).last() == nodes@[i as int]@);
        }
        let once = match mention_counts.get(nodes[i].uuid.as_str()) {
            Some(count) => *count == 1,
            None => false,
        };
        if once {
            let ghost before = out@;
            out.push(nodes[i].uuid.clone());
            assert(text::views(out@) =~= text::views(before).push(nodes@[i as int]@.uuid));
        }
        i += 1;
    }
    assert(all.take(all.len() as int) =~= all);
    out
}

/// The facts that go with an episode are those that it was the first to mention, and no others.
pub proof fn law_own_facts_go_and_no_others(
    edges: Seq<EntityEdgeView>,
    episode_uuid: Seq<char>,
    uuid: Seq<char>,
)
    ensures
        facts_made_by(edges, episode_uuid).contains(uuid) <==> exists|k: int|
            0 <= k < edges.len() && (#[trigger] edges[k]).uuid == uuid && made_by(
                edges[k],
                episode_uuid,
            ),
    decreases edges.len(),
{
    if edges.len() > 0 {
        let init = edges.drop_last();
        let before = facts_made_by(init, episode_uuid);
        let after = facts_made_by(edges, episode_uuid);
        law_own_facts_go_and_no_others(init, episode_uuid, uuid);
        assert(edges[edges.len() - 1] == edges.last());
        if before.contains(uuid) {
            let k = choose|k: int|
                0 <= k < init.len() && (#[trigger] init[k]).uuid == uuid && made_by(
                    init[k],
                    episode_uuid,
                );
            assert(edges[k] == init[k]);
            let i = choose|i: int| 0 <= i < before.len() && before[i] == uuid;
            assert(after[i] == uuid);
        }
        if made_by(edges.last(), episode_uuid) && edges.last().uuid == uuid {
            assert(after[after.len() - 1] == uuid);
        }
        if after.contains(uuid) && !before.contains(uuid) {
            let i = choose|i: int| 0 <= i < after.len() && after[i] == uuid;
            assert(i == before.len()) by {
                if i < before.len() {
                    assert(before[i] == uuid);
                }
            }
        }
        if exists|k: int|
            0 <= k < edges.len() && (#[trigger] edges[k]).uuid == uuid && made_by(
                edges[k],
                episode_uuid,
            ) {
            let k = choose|k: int|
                0 <= k < edges.len() && (#[trigger] edges[k]).uuid == uuid && made_by(
                    edges[k],
                    episode_uuid,
                );
            if k < init.len() {
                assert(init[k] == edges[k]);
            }
        }
    }
}

/// The entities that go with an episode are those of its entities that one episode alone mentions,
/// and no others.
pub proof fn law_unshared_entities_go_and_no_others(
    nodes: Seq<EntityNodeView>,
    counts: Map<Seq<char>, u64>,
    uuid: Seq<char>,
)
    ensures
        mentioned_once(nodes, counts).contains(uuid) <==> counts.dom().contains(uuid)
            && counts[uuid] == 1 && exists|k: int|
            0 <= k < nodes.len() && (#[trigger] nodes[k]).uuid == uuid,
    decreases nodes.len(),
{
    if nodes.len() > 0 {
        let init = nodes.drop_last();
        let before = mentioned_once(init, counts);
        let after = mentioned_once(nodes, counts);
        law_unshared_entities_go_and_no_others(init, counts, uuid);
        assert(nodes[nodes.len() - 1] == nodes.last());
        if before.contains(uuid) {
            let k = choose|k: int| 0 <= k < init.len() && (#[trigger] init[k]).uuid == uuid;
            assert(nodes[k] == init[k]);
            let i = choose|i: int| 0 <= i < before.len() && before[i] == uuid;
            assert(after[i] == uuid);
        }
        if counts.dom().contains(uuid) && counts[uuid] == 1 && nodes.last().uuid == uuid {
            assert(after[after.len() - 1] == uuid);
        }
        if after.contains(uuid) && !before.contains(uuid) {
            let i = choose|i: int| 0 <= i < after.len() && after[i] == uuid;
            assert(i == before.len()) by {
                if i < before.len() {
                    assert(before[i] == uuid);
                }
            }
        }
        if exists|k: int| 0 <= k < nodes.len() && (#[trigger] nodes[k]).uuid == uuid {
            let k = choose|k: int| 0 <= k < nodes.len() && (#[trigger] nodes[k]).uuid == uuid;
            if k < init.len() {
                assert(init[k] == nodes[k]);
            }
        }
    }
}

/// What a caller says of an entity never takes anything from it but the values of the attributes
/// and the summary that it writes over: identity, name, group and every label stay.
pub proof fn law_merging_keeps_identity_and_labels(
    r: EntityNodeView,
    known: EntityNodeView,
    given: EntityNodeView,
    label: Seq<char>,
    key: Seq<char>,
)
    requires
        is_merged(r, known, given),
    ensures
        r.uuid == known.uuid,
        r.name == known.name,
        r.group_id == known.group_id,
        r.name_embedding == known.name_embedding,
        known.labels.contains(label) ==> r.labels.contains(label),
        given.labels.contains(label) ==> r.labels.contains(label),
        known.attributes.dom().contains(key) ==> r.attributes.dom().contains(key),
        given.attributes.dom().contains(key) ==> r.attributes.dom().contains(key)
            && r.attributes[key] == given.attributes[key],
{
    if given.labels.len() > 0 {
        assert(r.labels.to_set().contains(label) == known.labels.to_set().union(
            given.labels.to_set(),
        ).contains(label));
    }
}

/// A fact goes with an episode exactly where its list of episodes begins with it, be the list as
/// long as it may. The identifiers of these facts come out in the order of the facts.
pub proof fn law_facts_go_with_their_first_episode(
    edges: Seq<EntityEdgeView>,
    episode_uuid: Seq<char>,
) -> (at: Seq<int>)
    ensures
        selection::selects(
            edges,
            facts_made_by(edges, episode_uuid),
            at,
            |i: int, e: EntityEdgeView| e.episodes.len() >= 1 && e.episodes[0] == episode_uuid,
            |e: EntityEdgeView| e.uuid,
        ),
    decreases edges.len(),
{
    let keep = |i: int, e: EntityEdgeView|
        e.episodes.len() >= 1 && e.episodes[0] == episode_uuid;
    let make = |e: EntityEdgeView| e.uuid;
    if edges.len() == 0 {
        Seq::empty()
    } else {
        let init = edges.drop_last();
        let before = law_facts_go_with_their_first_episode(init, episode_uuid);
        let out = facts_made_by(init, episode_uuid);
        selection::lemma_selects_next(edges, out, before, keep, keep, make);
        if keep(edges.len() - 1, edges.last()) {
            before.push(edges.len() - 1)
        } else {
            before
        }
    }
}

/// A fact whose list of episodes begins with the episode goes, and what goes is such a fact.
pub proof fn law_fact_of_the_episode_goes(
    edges: Seq<EntityEdgeView>,
    episode_uuid: Seq<char>,
    k: int,
    uuid: Seq<char>,
)
    ensures
        0 <= k < edges.len() && edges[k].episodes.len() >= 1 && edges[k].episodes[0] == episode_uuid
            ==> facts_made_by(edges, episode_uuid).contains(edges[k].uuid),
        facts_made_by(edges, episode_uuid).contains(uuid) ==> exists|i: int|
            {
                &&& 0 <= i < edges.len()
                &&& (#[trigger] edges[i]).uuid == uuid
                &&& edges[i].episodes.len() >= 1
                &&& edges[i].episodes[0] == episode_uuid
            },
{
    let out = facts_made_by(edges, episode_uuid);
    let at = law_facts_go_with_their_first_episode(edges, episode_uuid);
    if 0 <= k < edges.len() && edges[k].episodes.len() >= 1 && edges[k].episodes[0]
        == episode_uuid {
        let m = choose|m: int| 0 <= m < at.len() && at[m] == k;
        assert(out[m] == edges[k].uuid);
    }
    if out.contains(uuid) {
        let m = choose|m: int| 0 <= m < out.len() && out[m] == uuid;
        assert(edges[at[m]].uuid == uuid);
    }
}

/// An entity of an episode goes with it exactly where it is mentioned once. The identifiers of
/// these entities come out in the order of the entities.
pub proof fn law_entities_mentioned_once_go(
    nodes: Seq<EntityNodeView>,
    counts: Map<Seq<char>, u64>,
) -> (at: Seq<int>)
    ensures
        selection::selects(
            nodes,
            mentioned_once(nodes, counts),
            at,
            |i: int, n: EntityNodeView| counts.dom().contains(n.uuid) && counts[n.uuid] == 1,
            |n: EntityNodeView| n.uuid,
        ),
    decreases nodes.len(),
{
    let keep = |i: int, n: EntityNodeView| counts.dom().contains(n.uuid) && counts[n.uuid] == 1;
    let make = |n: EntityNodeView| n.uuid;
    if nodes.len() == 0 {
        Seq::empty()
    } else {
        let init = nodes.drop_last();
        let before = law_entities_mentioned_once_go(init, counts);
        selection::lemma_selects_next(nodes, mentioned_once(init, counts), before, keep, keep, make);
        if keep(nodes.len() - 1, nodes.last()) {
            before.push(nodes.len() - 1)
        } else {
            before
        }
    }
}

/// What a caller says of an entity wins where it says something: its summary unless it is empty,
/// its attributes by name. Where it says nothing, the known entity stays as it is.
pub proof fn law_given_values_win(
    r: EntityNodeView,
    known: EntityNodeView,
    given: EntityNodeView,
    label: Seq<char>,
    key: Seq<char>,
)
    requires
        is_merged(r, known, given),
    ensures
        r.uuid == known.uuid,
        r.name == known.name,
        r.group_id == known.group_id,
        r.created_at == known.created_at,
        r.name_embedding == known.name_embedding,
        given.summary.len() > 0 ==> r.summary == given.summary,
        given.summary.len() == 0 ==> r.summary == known.summary,
        given.labels.len() == 0 ==> r.labels == known.labels,
        given.labels.len() > 0 ==> (r.labels.contains(label) <==> known.labels.contains(label)
            || given.labels.contains(label)),
        r.attributes.dom().contains(key) <==> known.attributes.dom().contains(key)
            || given.attributes.dom().contains(key),
        given.attributes.dom().contains(key) ==> r.attributes[key] == given.attributes[key],
        known.attributes.dom().contains(key) && !given.attributes.dom().contains(key)
            ==> r.attributes[key] == known.attributes[key],
{
    if given.labels.len() > 0 {
        assert(r.labels.to_set().contains(label) == known.labels.to_set().union(
            given.labels.to_set(),
        ).contains(label));
    }
}

/// A fact that is stored under the same identifier is in the way exactly where it leads from
/// another entity or to another.
pub proof fn law_stored_fact_is_in_the_way(
    existing: EntityEdgeView,
    source: Seq<char>,
    target: Seq<char>,
)
    ensures
        existing.source_node_uuid == source && existing.target_node_uuid == target ==> !is_taken(
            Some(existing),
            source,
            target,
        ),
        existing.source_node_uuid != source ==> is_taken(Some(existing), source, target),
        existing.target_node_uuid != target ==> is_taken(Some(existing), source, target),
        !is_taken(None, source, target),
{
}

/// An embedding that is there stays, and nothing is embedded then; one that came fills the gap.
pub proof fn law_embeddings_fill_gaps(
    text: Seq<char>,
    have: Option<Seq<u32>>,
    came: Option<Seq<u32>>,
)
    ensures
        have is Some ==> embedding_or(have, came) == have && text_to_embed(text, have) is None,
        have is None ==> embedding_or(have, came) == came && text_to_embed(text, have) is Some,
        have is None ==> {
            let line = text_to_embed(text, have)->0;
            &&& line.len() == text.len()
            &&& forall|i: int|
                0 <= i < text.len() ==> #[trigger] line[i] == if text[i] == '\n' {
                    ' '
                } else {
                    text[i]
                }
        },
{
    if have is None {
        text::lemma_replaced_by_one(text, '\n', ' ');
        reveal_strlit(" ");
        assert(" "@ =~= seq![' ']);
    }
}

/// An end of a fact is the entity that is stored, or the first that it resolved to; it is missing only
/// where the resolution has none.
pub proof fn law_end_is_stored_or_resolved(node: EntityNode, nodes: Vec<EntityNode>)
    ensures
        known_end(FoundEnd::Stored(node)) == Some(node@),
        nodes@.len() > 0 ==> known_end(FoundEnd::Resolved(nodes)) == Some(nodes@[0]@),
        nodes@.len() == 0 ==> known_end(FoundEnd::Resolved(nodes)) is None,
{
}

} // verus!
