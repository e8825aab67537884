//! The ingestion of many episodes at once, with entities and facts that are the same across
//! them merged.
use crate::collections::{self, StringMap, StringSet};
use crate::errors::ChronicleError;
use crate::ids;
use crate::pipeline::edge_ops;
use crate::pipeline::node_ops;
use crate::pipeline::uuid_map;
use crate::text::{self, owned};
use crate::time::Timestamp;
use crate::types::{self, Embedding};
use crate::types::community::{CommunityEdge, CommunityNode};
use crate::types::edge::{EntityEdge, EntityEdgeView, EpisodicEdge, EpisodicEdgeView};
use crate::types::episode::{EpisodeType, EpisodicNode, EpisodicNodeView};
use crate::types::node::{EntityNode, EntityNodeView};
pub use crate::pipeline::uuid_map::{build_directed_uuid_map, compress_uuid_map};
use vstd::prelude::*;

verus! {

/// How many episodes a caller should hand over at once.
pub const CHUNK_SIZE: usize = 10;

/// The least cosine similarity by which facts without a common word are compared: the bits of
/// the single-precision number 0.6.
pub const EDGE_DEDUP_MIN_SCORE: u32 = 0x3f19_999a;

/// An episode as a caller hands it over.
#[derive(Debug)]
pub struct RawEpisode {
    pub name: String,
    /// The identifier of an episode that is stored already.
    pub uuid: Option<String>,
    pub content: String,
    pub source_description: String,
    pub source: EpisodeType,
    pub reference_time: Timestamp,
}

/// What the ingestion of many episodes stored.
#[derive(Debug)]
pub struct AddBulkEpisodeResults {
    pub episodes: Vec<EpisodicNode>,
    pub episodic_edges: Vec<EpisodicEdge>,
    pub nodes: Vec<EntityNode>,
    pub edges: Vec<EntityEdge>,
    /// Always empty: communities are not updated.
    pub communities: Vec<CommunityNode>,
    /// Always empty: communities are not updated.
    pub community_edges: Vec<CommunityEdge>,
}

impl AddBulkEpisodeResults {
    /// The results without communities.
    pub fn new(
        episodes: Vec<EpisodicNode>,
        episodic_edges: Vec<EpisodicEdge>,
        nodes: Vec<EntityNode>,
        edges: Vec<EntityEdge>,
    ) -> (r: AddBulkEpisodeResults)
        ensures
            r.episodes == episodes,
            r.episodic_edges == episodic_edges,
            r.nodes == nodes,
            r.edges == edges,
            r.communities@.len() == 0,
            r.community_edges@.len() == 0,
    {
        AddBulkEpisodeResults {
            episodes,
            episodic_edges,
            nodes,
            edges,
            communities: Vec::new(),
            community_edges: Vec::new(),
        }
    }
}

/// Holds where `e` is the fresh episode of what a caller handed over.
pub open spec fn is_fresh_episode(
    e: EpisodicNodeView,
    raw: RawEpisode,
    group_id: Seq<char>,
    now: Timestamp,
) -> bool {
    &&& ids::is_random_uuid(e.uuid)
    &&& e == EpisodicNodeView {
        uuid: e.uuid,
        name: raw.name@,
        group_id,
        labels: Seq::empty(),
        source: raw.source,
        source_description: raw.source_description@,
        content: raw.content@,
        entity_edges: Seq::empty(),
        created_at: now,
        valid_at: raw.reference_time,
    }
}

/// The episode of what a caller handed over: the stored one where an identifier is given, and a
/// fresh one otherwise. `found` is what is stored under the identifier.
pub fn materialize_episode(
    raw: &RawEpisode,
    found: Option<EpisodicNode>,
    group_id: &str,
    now: Timestamp,
) -> (r: Result<EpisodicNode, ChronicleError>)
    ensures
        match raw.uuid {
            Some(uuid) => match found {
                Some(e) => r matches Ok(episode) && episode@ == e@,
                None => r matches Err(ChronicleError::EpisodeNotFound { uuid: missing }) && missing@
                    == uuid@,
            },
            None => r matches Ok(episode) && is_fresh_episode(episode@, *raw, group_id@, now),
        },
{
    match &raw.uuid {
        Some(uuid) => match found {
            Some(e) => Ok(e),
            None => Err(ChronicleError::EpisodeNotFound { uuid: uuid.clone() }),
        },
        None => Ok(
            EpisodicNode::new(
                raw.name.clone(),
                owned(group_id),
                raw.source,
                raw.source_description.clone(),
                raw.content.clone(),
                now,
                raw.reference_time,
            ),
        ),
    }
}

/// What an identifier stands for: what a map says, or itself.
pub open spec fn canonical(m: Map<Seq<char>, Seq<char>>, uuid: Seq<char>) -> Seq<char> {
    if m.dom().contains(uuid) {
        m[uuid]
    } else {
        uuid
    }
}

/// A fact between what its entities stand for.
pub open spec fn pointed(e: EntityEdgeView, m: Map<Seq<char>, Seq<char>>) -> EntityEdgeView {
    EntityEdgeView {
        source_node_uuid: canonical(m, e.source_node_uuid),
        target_node_uuid: canonical(m, e.target_node_uuid),
        ..e
    }
}

/// What an identifier stands for.
pub(crate) fn canonical_uuid(uuid_map: &StringMap<String>, uuid: &str) -> (r: String)
    ensures
        r@ == canonical(uuid_map::text_map(uuid_map@), uuid@),
{
    match uuid_map.get(uuid) {
        Some(c) => c.clone(),
        None => owned(uuid),
    }
}

/// Points each fact at what its entities stand for. Identifiers that the map does not hold stay.
pub fn resolve_edge_pointers(edges: &mut Vec<EntityEdge>, uuid_map: &StringMap<String>)
    ensures
        types::edge_views(final(edges)@) == types::edge_views(old(edges)@).map_values(
            |e: EntityEdgeView| pointed(e, uuid_map::text_map(uuid_map@)),
        ),
{
    let ghost start = edges@;
    let ghost m = uuid_map::text_map(uuid_map@);
    let mut i: usize = 0;
    while i < edges.len()
        invariant
            i <= edges@.len(),
            edges@.len() == start.len(),
            m == uuid_map::text_map(uuid_map@),
            forall|j: int| 0 <= j < i ==> (#[trigger] edges@[j])@ == pointed(start[j]@, m),
            forall|j: int| i <= j < start.len() ==> edges@[j] == #[trigger] start[j],
        decreases edges.len() - i,
    {
        let mut e = edges[i].clone();
        assert(e@ == start[i as int]@);
        e.source_node_uuid = canonical_uuid(uuid_map, e.source_node_uuid.as_str());
        e.target_node_uuid = canonical_uuid(uuid_map, e.target_node_uuid.as_str());
        edges.set(i, e);
        i += 1;
    }
    assert(types::edge_views(edges@) =~= types::edge_views(start).map_values(
        |e: EntityEdgeView| pointed(e, m),
    ));
}

/// The views of a sequence of mentions.
pub open spec fn mention_views(edges: Seq<EpisodicEdge>) -> Seq<EpisodicEdgeView> {
    edges.map_values(|e: EpisodicEdge| e@)
}

/// Points each mention at what its entity stands for. The episode is no entity and stays.
pub fn resolve_episodic_edge_pointers(edges: &mut Vec<EpisodicEdge>, uuid_map: &StringMap<String>)
    ensures
        mention_views(final(edges)@) == mention_views(old(edges)@).map_values(
            |e: EpisodicEdgeView|
                EpisodicEdgeView {
                    target_node_uuid: canonical(uuid_map::text_map(uuid_map@), e.target_node_uuid),
                    ..e
                },
        ),
{
    let ghost start = edges@;
    let ghost m = uuid_map::text_map(uuid_map@);
    let mut i: usize = 0;
    while i < edges.len()
        invariant
            i <= edges@.len(),
            edges@.len() == start.len(),
            m == uuid_map::text_map(uuid_map@),
            forall|j: int|
                0 <= j < i ==> (#[trigger] edges@[j])@ == (EpisodicEdgeView {
                    target_node_uuid: canonical(m, start[j]@.target_node_uuid),
                    ..start[j]@
                }),
            forall|j: int| i <= j < start.len() ==> edges@[j] == #[trigger] start[j],
        decreases edges.len() - i,
    {
        let mut e = edges[i].clone();
        assert(e@ == start[i as int]@);
        e.target_node_uuid = canonical_uuid(uuid_map, e.target_node_uuid.as_str());
        edges.set(i, e);
        i += 1;
    }
    assert(mention_views(edges@) =~= mention_views(start).map_values(
        |e: EpisodicEdgeView|
            EpisodicEdgeView { target_node_uuid: canonical(m, e.target_node_uuid), ..e },
    ));
}

/// Holds where `edge` is a fresh mention of an entity in an episode.
pub open spec fn is_mention(
    edge: EpisodicEdgeView,
    episode_uuid: Seq<char>,
    node_uuid: Seq<char>,
    group_id: Seq<char>,
    now: Timestamp,
) -> bool {
    &&& ids::is_random_uuid(edge.uuid)
    &&& edge == EpisodicEdgeView {
        uuid: edge.uuid,
        source_node_uuid: episode_uuid,
        target_node_uuid: node_uuid,
        group_id,
        created_at: now,
    }
}

/// A mention in an episode for each of its entities, in order.
pub fn build_mentions(episode_uuid: &str, nodes: &Vec<EntityNode>, group_id: &str, now: Timestamp) -> (r:
    Vec<EpisodicEdge>)
    ensures
        r@.len() == nodes@.len(),
        forall|i: int|
            0 <= i < nodes@.len() ==> is_mention(
                (#[trigger] r@[i])@,
                episode_uuid@,
                nodes@[i]@.uuid,
                group_id@,
                now,
            ),
{
    let mut out: Vec<EpisodicEdge> = Vec::new();
    let mut i: usize = 0;
    while i < nodes.len()
        invariant
            i <= nodes@.len(),
            out@.len() == i,
            forall|j: int|
                0 <= j < i ==> is_mention(
                    (#[trigger] out@[j])@,
                    episode_uuid@,
                    nodes@[j]@.uuid,
                    group_id@,
                    now,
                ),
        decreases nodes.len() - i,
    {
        out.push(
            EpisodicEdge::new(owned(episode_uuid), nodes[i].uuid.clone(), owned(group_id), now),
        );
        i += 1;
    }
    out
}

/// The texts of the facts that have no embedding, in order.
pub open spec fn unembedded_facts(edges: Seq<EntityEdgeView>) -> Seq<Seq<char>>
    decreases edges.len(),
{
    if edges.len() == 0 {
        Seq::empty()
    } else if edges.last().fact_embedding is None {
        unembedded_facts(edges.drop_last()).push(edges.last().fact)
    } else {
        unembedded_facts(edges.drop_last())
    }
}

/// The names of the entities that have no embedding, in order.
pub open spec fn unembedded_names(nodes: Seq<EntityNodeView>) -> Seq<Seq<char>>
    decreases nodes.len(),
{
    if nodes.len() == 0 {
        Seq::empty()
    } else if nodes.last().name_embedding is None {
        unembedded_names(nodes.drop_last()).push(nodes.last().name)
    } else {
        unembedded_names(nodes.drop_last())
    }
}

/// The texts of the facts that have no embedding.
pub fn facts_without_embedding(edges: &Vec<EntityEdge>) -> (r: Vec<String>)
    ensures
        text::views(r@) == unembedded_facts(types::edge_views(edges@)),
{
    let ghost all = types::edge_views(edges@);
    let mut out: Vec<String> = Vec::new();
    let mut i: usize = 0;
    assert(text::views(out@) =~= unembedded_facts(all.take(0)));
    while i < edges.len()
        invariant
            i <= edges@.len(),
            all == types::edge_views(edges@),
            text::views(out@) == unembedded_facts(all.take(i as int)),
        decreases edges.len() - i,
    {
        proof {
            assert(all.take(i as int + 1).drop_last() =~= all.take(i as int));
            assert(all.take(i as int + 1).last() == edges@[i as int]@);
        }
        if edges[i].fact_embedding.is_none() {
            let ghost before = out@;
            out.push(edges[i].fact.clone());
            assert(text::views(out@) =~= text::views(before).push(edges@[i as int]@.fact));
        }
        i += 1;
    }
    assert(all.take(all.len() as int) =~= all);
    out
}

/// The names of the entities that have no embedding.
pub fn names_without_embedding(nodes: &Vec<EntityNode>) -> (r: Vec<String>)
    ensures
        text::views(r@) == unembedded_names(types::node_views(nodes@)),
{
    let ghost all = types::node_views(nodes@);
    let mut out: Vec<String> = Vec::new();
    let mut i: usize = 0;
    assert(text::views(out@) =~= unembedded_names(all.take(0)));
    while i < nodes.len()
        invariant
            i <= nodes@.len(),
            all == types::node_views(nodes@),
            text::views(out@) == unembedded_names(all.take(i as int)),
        decreases nodes.len() - i,
    {
        proof {
            assert(all.take(i as int + 1).drop_last() =~= all.take(i as int));
            assert(all.take(i as int + 1).last() == nodes@[i as int]@);
        }
        if nodes[i].name_embedding.is_none() {
            let ghost before = out@;
            out.push(nodes[i].name.clone());
            assert(text::views(out@) =~= text::views(before).push(nodes@[i as int]@.name));
        }
        i += 1;
    }
    assert(all.take(all.len() as int) =~= all);
    out
}

/// The fact at `i` once the embeddings from `from` on were handed to the facts without one, in
/// order, as far as they reach.
pub open spec fn embedded_fact(
    edges: Seq<EntityEdgeView>,
    embeddings: Seq<Embedding>,
    from: int,
    i: int,
) -> EntityEdgeView {
    let at = from + unembedded_facts(edges.take(i)).len();
    if edges[i].fact_embedding is None && at < embeddings.len() {
        EntityEdgeView { fact_embedding: Some(embeddings[at]@), ..edges[i] }
    } else {
        edges[i]
    }
}

/// The entity at `i` once the embeddings were handed to the entities without one, in order, as
/// far as they reach.
pub open spec fn embedded_name(
    nodes: Seq<EntityNodeView>,
    embeddings: Seq<Embedding>,
    i: int,
) -> EntityNodeView {
    let at = unembedded_names(nodes.take(i)).len() as int;
    if nodes[i].name_embedding is None && at < embeddings.len() {
        EntityNodeView { name_embedding: Some(embeddings[at]@), ..nodes[i] }
    } else {
        nodes[i]
    }
}

/// A number, and at most `limit`.
pub open spec fn at_most(n: int, limit: int) -> int {
    if n <= limit {
        n
    } else {
        limit
    }
}

/// Hands the embeddings from `from` on to the facts that have none, in order, as far as they
/// reach. Returns where the embeddings go on for the facts after these.
pub fn fill_fact_embeddings(
    edges: &mut Vec<EntityEdge>,
    embeddings: &Vec<Embedding>,
    from: usize,
) -> (r: usize)
    requires
        from <= embeddings@.len(),
    ensures
        r == at_most(
            from + unembedded_facts(types::edge_views(old(edges)@)).len(),
            embeddings@.len() as int,
        ),
        types::edge_views(final(edges)@) == Seq::new(
            old(edges)@.len(),
            |i: int| embedded_fact(types::edge_views(old(edges)@), embeddings@, from as int, i),
        ),
{
    let ghost start = edges@;
    let ghost all = types::edge_views(edges@);
    let mut next: usize = from;
    let mut i: usize = 0;
    while i < edges.len()
        invariant
            i <= edges@.len(),
            edges@.len() == start.len(),
            all == types::edge_views(start),
            from <= embeddings@.len(),
            next == at_most(
                from + unembedded_facts(all.take(i as int)).len(),
                embeddings@.len() as int,
            ),
            forall|j: int|
                0 <= j < i ==> (#[trigger] edges@[j])@ == embedded_fact(
                    all,
                    embeddings@,
                    from as int,
                    j,
                ),
            forall|j: int| i <= j < start.len() ==> edges@[j] == #[trigger] start[j],
        decreases edges.len() - i,
    {
        proof {
            assert(all.take(i as int + 1).drop_last() =~= all.take(i as int));
            assert(all.take(i as int + 1).last() == start[i as int]@);
            assert(all[i as int] == start[i as int]@);
        }
        if edges[i].fact_embedding.is_none() && next < embeddings.len() {
            let mut e = edges[i].clone();
            let v = embeddings[next].clone();
            assert(v@ =~= embeddings@[next as int]@);
            e.fact_embedding = Some(v);
            edges.set(i, e);
            next += 1;
        }
        i += 1;
    }
    assert(all.take(all.len() as int) =~= all);
    assert(types::edge_views(edges@) =~= Seq::new(
        start.len(),
        |i: int| embedded_fact(all, embeddings@, from as int, i),
    ));
    next
}

/// Hands the embeddings to the entities that have none, in order.
pub fn fill_name_embeddings(nodes: &mut Vec<EntityNode>, embeddings: &Vec<Embedding>)
    ensures
        types::node_views(final(nodes)@) == Seq::new(
            old(nodes)@.len(),
            |i: int| embedded_name(types::node_views(old(nodes)@), embeddings@, i),
        ),
{
    let ghost start = nodes@;
    let ghost all = types::node_views(nodes@);
    let mut next: usize = 0;
    let mut i: usize = 0;
    while i < nodes.len()
        invariant
            i <= nodes@.len(),
            nodes@.len() == start.len(),
            all == types::node_views(start),
            next == unembedded_names(all.take(i as int)).len(),
            next <= i,
            forall|j: int|
                0 <= j < i ==> (#[trigger] nodes@[j])@ == embedded_name(all, embeddings@, j),
            forall|j: int| i <= j < start.len() ==> nodes@[j] == #[trigger] start[j],
        decreases nodes.len() - i,
    {
        proof {
            assert(all.take(i as int + 1).drop_last() =~= all.take(i as int));
            assert(all.take(i as int + 1).last() == start[i as int]@);
            assert(all[i as int] == start[i as int]@);
        }
        if nodes[i].name_embedding.is_none() {
            if next < embeddings.len() {
                let mut n = nodes[i].clone();
                let v = embeddings[next].clone();
                assert(v@ =~= embeddings@[next as int]@);
                n.name_embedding = Some(v);
                nodes.set(i, n);
            }
            next += 1;
        }
        i += 1;
    }
    assert(all.take(all.len() as int) =~= all);
    assert(types::node_views(nodes@) =~= Seq::new(
        start.len(),
        |i: int| embedded_name(all, embeddings@, i),
    ));
}

/// The entities whose identifiers neither are in a set nor occur before, in order.
pub open spec fn unseen_nodes(nodes: Seq<EntityNodeView>, seen: Set<Seq<char>>) -> Seq<EntityNodeView>
    decreases nodes.len(),
{
    if nodes.len() == 0 {
        Seq::empty()
    } else {
        let before = unseen_nodes(nodes.drop_last(), seen);
        if seen.contains(nodes.last().uuid) || node_ops::uuids_of(nodes.drop_last()).contains(
            nodes.last().uuid,
        ) {
            before
        } else {
            before.push(nodes.last())
        }
    }
}

/// The facts whose identifiers neither are in a set nor occur before, in order.
pub open spec fn unseen_edges(edges: Seq<EntityEdgeView>, seen: Set<Seq<char>>) -> Seq<EntityEdgeView>
    decreases edges.len(),
{
    if edges.len() == 0 {
        Seq::empty()
    } else {
        let before = unseen_edges(edges.drop_last(), seen);
        if seen.contains(edges.last().uuid) || edge_ops::edge_uuids(edges.drop_last()).contains(
            edges.last().uuid,
        ) {
            before
        } else {
            before.push(edges.last())
        }
    }
}

/// Leaves the entities that were not seen yet, and sees them.
pub fn take_unseen_nodes(nodes: &Vec<EntityNode>, seen: &mut StringSet) -> (r: Vec<EntityNode>)
    ensures
        types::node_views(r@) == unseen_nodes(types::node_views(nodes@), old(seen)@),
        final(seen)@ == old(seen)@.union(node_ops::uuids_of(types::node_views(nodes@))),
{
    let ghost all = types::node_views(nodes@);
    let ghost start = seen@;
    let mut out: Vec<EntityNode> = Vec::new();
    let mut i: usize = 0;
    assert(types::node_views(out@) =~= unseen_nodes(all.take(0), start));
    assert(seen@ =~= start.union(node_ops::uuids_of(all.take(0))));
    while i < nodes.len()
        invariant
            i <= nodes@.len(),
            all == types::node_views(nodes@),
            types::node_views(out@) == unseen_nodes(all.take(i as int), start),
            seen@ == start.union(node_ops::uuids_of(all.take(i as int))),
        decreases nodes.len() - i,
    {
        proof {
            assert(all.take(i as int + 1).drop_last() =~= all.take(i as int));
            assert(all.take(i as int + 1).last() == nodes@[i as int]@);
            node_ops::lemma_uuids_push(all.take(i as int), nodes@[i as int]@);
            assert(all.take(i as int + 1) =~= all.take(i as int).push(nodes@[i as int]@));
        }
        let ghost had = seen@;
        if seen.insert(nodes[i].uuid.clone()) {
            let ghost before = out@;
            out.push(nodes[i].clone());
            assert(types::node_views(out@) =~= types::node_views(before).push(nodes@[i as int]@));
        }
        assert(seen@ =~= start.union(node_ops::uuids_of(all.take(i as int + 1))));
        i += 1;
    }
    assert(all.take(all.len() as int) =~= all);
    out
}

/// One more fact adds its identifier.
pub proof fn lemma_edge_uuids_push(edges: Seq<EntityEdgeView>, edge: EntityEdgeView)
    ensures
        edge_ops::edge_uuids(edges.push(edge)) == edge_ops::edge_uuids(edges).insert(edge.uuid),
{
    let before = edges.map_values(|e: EntityEdgeView| e.uuid);
    let after = edges.push(edge).map_values(|e: EntityEdgeView| e.uuid);
    assert(after =~= before.push(edge.uuid));
    assert forall|x: Seq<char>| after.to_set().contains(x) == before.to_set().insert(
        edge.uuid,
    ).contains(x) by {
        if before.contains(x) {
            let k = choose|k: int| 0 <= k < before.len() && before[k] == x;
            assert(after[k] == x);
        }
        if x == edge.uuid {
            assert(after[edges.len() as int] == x);
        }
        if after.contains(x) {
            let k = choose|k: int| 0 <= k < after.len() && after[k] == x;
            if k < edges.len() {
                assert(before[k] == x);
            }
        }
    }
    assert(after.to_set() =~= before.to_set().insert(edge.uuid));
}

/// Leaves the facts that were not seen yet, and sees them.
pub fn take_unseen_edges(edges: &Vec<EntityEdge>, seen: &mut StringSet) -> (r: Vec<EntityEdge>)
    ensures
        types::edge_views(r@) == unseen_edges(types::edge_views(edges@), old(seen)@),
        final(seen)@ == old(seen)@.union(edge_ops::edge_uuids(types::edge_views(edges@))),
{
    let ghost all = types::edge_views(edges@);
    let ghost start = seen@;
    let mut out: Vec<EntityEdge> = Vec::new();
    let mut i: usize = 0;
    assert(types::edge_views(out@) =~= unseen_edges(all.take(0), start));
    assert(seen@ =~= start.union(edge_ops::edge_uuids(all.take(0))));
    while i < edges.len()
        invariant
            i <= edges@.len(),
            all == types::edge_views(edges@),
            types::edge_views(out@) == unseen_edges(all.take(i as int), start),
            seen@ == start.union(edge_ops::edge_uuids(all.take(i as int))),
        decreases edges.len() - i,
    {
        proof {
            assert(all.take(i as int + 1).drop_last() =~= all.take(i as int));
            assert(all.take(i as int + 1).last() == edges@[i as int]@);
            lemma_edge_uuids_push(all.take(i as int), edges@[i as int]@);
            assert(all.take(i as int + 1) =~= all.take(i as int).push(edges@[i as int]@));
        }
        if seen.insert(edges[i].uuid.clone()) {
            let ghost before = out@;
            out.push(edges[i].clone());
            assert(types::edge_views(out@) =~= types::edge_views(before).push(edges@[i as int]@));
        }
        assert(seen@ =~= start.union(edge_ops::edge_uuids(all.take(i as int + 1))));
        i += 1;
    }
    assert(all.take(all.len() as int) =~= all);
    out
}

/// Writes every entry of `from` into `into`, over what stood there.
pub fn extend_uuid_map(into: &mut StringMap<String>, from: &StringMap<String>)
    ensures
        uuid_map::text_map(final(into)@) == uuid_map::text_map(old(into)@).union_prefer_right(
            uuid_map::text_map(from@),
        ),
{
    let n = from.len();
    let mut i: usize = 0;
    let ghost start = into@;
    assert(from.keys().take(0).len() == 0);
    while i < n
        invariant
            i <= n,
            n == from.keys().len(),
            from@ == collections::zip_map(from.keys(), from.values()),
            forall|k: Seq<char>| #[trigger]
                into@.dom().contains(k) <==> start.dom().contains(k) || from.keys().take(
                    i as int,
                ).contains(k),
            forall|k: Seq<char>| #[trigger]
                into@.dom().contains(k) ==> into@[k]@ == (if from.keys().take(i as int).contains(
                    k,
                ) {
                    from@[k]@
                } else {
                    start[k]@
                }),
        decreases n - i,
    {
        let key = from.key_at(i);
        let value = from.value_at(i);
        into.insert(key.clone(), value.clone());
        proof {
            collections::lemma_take_contains(from.keys(), i as int);
        }
        i += 1;
    }
    proof {
        assert(from.keys().take(n as int) =~= from.keys());
        assert(
            uuid_map::text_map(into@) =~= uuid_map::text_map(start).union_prefer_right(
                uuid_map::text_map(from@),
            )
        );
    }
}

proof fn lemma_unembedded_names_grow(nodes: Seq<EntityNodeView>, i: int)
    requires
        0 <= i < nodes.len(),
    ensures
        unembedded_names(nodes.take(i)).len() <= unembedded_names(nodes).len(),
        nodes[i].name_embedding is None ==> unembedded_names(nodes.take(i)).len()
            < unembedded_names(nodes).len(),
    decreases nodes.len(),
{
    let init = nodes.drop_last();
    if i == nodes.len() - 1 {
        assert(nodes.take(i) =~= init);
    } else {
        lemma_unembedded_names_grow(init, i);
        assert(init.take(i) =~= nodes.take(i));
        assert(init[i] == nodes[i]);
    }
}

proof fn lemma_unembedded_facts_grow(edges: Seq<EntityEdgeView>, i: int)
    requires
        0 <= i < edges.len(),
    ensures
        unembedded_facts(edges.take(i)).len() <= unembedded_facts(edges).len(),
        edges[i].fact_embedding is None ==> unembedded_facts(edges.take(i)).len()
            < unembedded_facts(edges).len(),
    decreases edges.len(),
{
    let init = edges.drop_last();
    if i == edges.len() - 1 {
        assert(edges.take(i) =~= init);
    } else {
        lemma_unembedded_facts_grow(init, i);
        assert(init.take(i) =~= edges.take(i));
        assert(init[i] == edges[i]);
    }
}

/// With an embedding for each name that was asked for, every entity has an embedding, and an
/// entity that had one keeps it.
pub proof fn law_every_entity_is_embedded(
    nodes: Seq<EntityNodeView>,
    embeddings: Seq<Embedding>,
    i: int,
)
    requires
        0 <= i < nodes.len(),
        embeddings.len() == unembedded_names(nodes).len(),
    ensures
        embedded_name(nodes, embeddings, i).name_embedding is Some,
        nodes[i].name_embedding is Some ==> embedded_name(nodes, embeddings, i) == nodes[i],
{
    lemma_unembedded_names_grow(nodes, i);
}

/// With an embedding for each fact that was asked for, every fact has an embedding, and a fact
/// that had one keeps it.
pub proof fn law_every_fact_is_embedded(
    edges: Seq<EntityEdgeView>,
    embeddings: Seq<Embedding>,
    i: int,
)
    requires
        0 <= i < edges.len(),
        embeddings.len() == unembedded_facts(edges).len(),
    ensures
        embedded_fact(edges, embeddings, 0, i).fact_embedding is Some,
        edges[i].fact_embedding is Some ==> embedded_fact(edges, embeddings, 0, i) == edges[i],
{
    lemma_unembedded_facts_grow(edges, i);
}

} // verus!
