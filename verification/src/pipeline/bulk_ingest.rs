//! The phases of the ingestion of many episodes at once.
//!
//! Each phase holds what the work outside of it needs next, and takes what came of that work into
//! the phase after it: [`BulkNodes`], [`BulkFacts`], [`BulkPairs`], [`BulkReconcile`],
//! [`BulkEdges`] and [`BulkBatch`], which is stored and gives the results.
use crate::collections::{StringMap, StringSet};
use crate::pipeline::bulk::{
    self, build_mentions, extend_uuid_map, facts_without_embedding, fill_fact_embeddings,
    fill_name_embeddings, resolve_edge_pointers, resolve_episodic_edge_pointers, take_unseen_edges,
    take_unseen_nodes, AddBulkEpisodeResults,
};
use crate::pipeline::bulk_dedup::{
    self, dedupe_resolved_nodes, duplicate_pairs, flatten_edges, project_edges,
};
use crate::pipeline::edge_ops::{self, EdgeResolutionOutcome};
use crate::pipeline::node_ops::{self, NodeOutcomeView, NodeResolutionOutcome};
use crate::pipeline::uuid_map::{self, Alias};
use crate::search::found::{self, flatten};
use crate::text::{self, str_eq};
use crate::time::Timestamp;
use crate::types::{self, clone_edges, clone_nodes, Embedding};
use crate::types::edge::{EntityEdge, EntityEdgeView, EpisodicEdge, EpisodicEdgeView};
use crate::types::episode::{EpisodicNode, EpisodicNodeView};
use crate::types::node::{EntityNode, EntityNodeView};
use vstd::prelude::*;

verus! {

/// The episodes of a batch.
#[derive(Debug)]
pub struct BulkContext {
    pub episodes: Vec<EpisodicNode>,
    pub group_id: String,
    pub now: Timestamp,
}

/// The identifiers of episodes.
pub open spec fn episode_uuids(episodes: Seq<EpisodicNode>) -> Seq<Seq<char>> {
    types::episode_views(episodes).map_values(|e: EpisodicNodeView| e.uuid)
}

/// The last position of an identifier, among those that one of `n` lists goes with.
pub open spec fn latest_at(uuids: Seq<Seq<char>>, n: nat, uuid: Seq<char>) -> Option<int>
    decreases uuids.len(),
{
    if uuids.len() == 0 {
        None
    } else if uuids.last() == uuid && uuids.len() <= n {
        Some(uuids.len() - 1)
    } else {
        latest_at(uuids.drop_last(), n, uuid)
    }
}

/// The list that goes with an episode: the last one, where the episode is there more than once.
pub open spec fn list_of<V>(uuids: Seq<Seq<char>>, lists: Seq<Seq<V>>, uuid: Seq<char>) -> Seq<V> {
    match latest_at(uuids, lists.len(), uuid) {
        Some(i) => lists[i],
        None => Seq::empty(),
    }
}

/// The lists that go with the episodes.
pub open spec fn lists_of<V>(uuids: Seq<Seq<char>>, lists: Seq<Seq<V>>) -> Seq<Seq<V>> {
    uuids.map_values(|u: Seq<char>| list_of(uuids, lists, u))
}

fn find_latest(episodes: &Vec<EpisodicNode>, n: usize, uuid: &str) -> (r: Option<usize>)
    ensures
        match latest_at(episode_uuids(episodes@), n as nat, uuid@) {
            Some(i) => r matches Some(j) && i == j && j < n,
            None => r is None,
        },
{
    let ghost all = episode_uuids(episodes@);
    let mut i: usize = episodes.len();
    assert(all.take(i as int) =~= all);
    while i > 0
        invariant
            i <= episodes@.len(),
            all == episode_uuids(episodes@),
            latest_at(all, n as nat, uuid@) == latest_at(all.take(i as int), n as nat, uuid@),
        decreases i,
    {
        proof {
            assert(all.take(i as int).last() == episodes@[i - 1]@.uuid);
            assert(all.take(i as int).drop_last() =~= all.take(i - 1));
        }
        if i <= n && str_eq(episodes[i - 1].uuid.as_str(), uuid) {
            return Some(i - 1);
        }
        i -= 1;
    }
    None
}

/// The entities that go with the episodes.
pub fn nodes_by_episode(episodes: &Vec<EpisodicNode>, lists: &Vec<Vec<EntityNode>>) -> (r: Vec<
    Vec<EntityNode>,
>)
    ensures
        node_ops::node_list_views(r@) == lists_of(
            episode_uuids(episodes@),
            node_ops::node_list_views(lists@),
        ),
{
    let ghost uuids = episode_uuids(episodes@);
    let ghost goal = lists_of(uuids, node_ops::node_list_views(lists@));
    let mut out: Vec<Vec<EntityNode>> = Vec::new();
    let mut i: usize = 0;
    while i < episodes.len()
        invariant
            i <= episodes@.len(),
            uuids == episode_uuids(episodes@),
            goal == lists_of(uuids, node_ops::node_list_views(lists@)),
            out@.len() == i,
            forall|j: int| 0 <= j < i ==> types::node_views((#[trigger] out@[j])@) == goal[j],
        decreases episodes.len() - i,
    {
        assert(uuids[i as int] == episodes@[i as int]@.uuid);
        let list = match find_latest(episodes, lists.len(), episodes[i].uuid.as_str()) {
            Some(at) => clone_nodes(&lists[at]),
            None => Vec::new(),
        };
        assert(types::node_views(list@) =~= goal[i as int]);
        out.push(list);
        i += 1;
    }
    assert(node_ops::node_list_views(out@) =~= goal);
    out
}

/// The facts that go with the episodes.
pub fn edges_by_episode(episodes: &Vec<EpisodicNode>, lists: &Vec<Vec<EntityEdge>>) -> (r: Vec<
    Vec<EntityEdge>,
>)
    ensures
        bulk_dedup::edge_list_views(r@) == lists_of(
            episode_uuids(episodes@),
            bulk_dedup::edge_list_views(lists@),
        ),
{
    let ghost uuids = episode_uuids(episodes@);
    let ghost goal = lists_of(uuids, bulk_dedup::edge_list_views(lists@));
    let mut out: Vec<Vec<EntityEdge>> = Vec::new();
    let mut i: usize = 0;
    while i < episodes.len()
        invariant
            i <= episodes@.len(),
            uuids == episode_uuids(episodes@),
            goal == lists_of(uuids, bulk_dedup::edge_list_views(lists@)),
            out@.len() == i,
            forall|j: int| 0 <= j < i ==> types::edge_views((#[trigger] out@[j])@) == goal[j],
        decreases episodes.len() - i,
    {
        assert(uuids[i as int] == episodes@[i as int]@.uuid);
        let list = match find_latest(episodes, lists.len(), episodes[i].uuid.as_str()) {
            Some(at) => clone_edges(&lists[at]),
            None => Vec::new(),
        };
        assert(types::edge_views(list@) =~= goal[i as int]);
        out.push(list);
        i += 1;
    }
    assert(bulk_dedup::edge_list_views(out@) =~= goal);
    out
}

/// The pairs of an episode and an entity that it mentions, for the first `k` episodes. An episode
/// that is there more than once mentions its entities once.
pub open spec fn mention_pairs(
    uuids: Seq<Seq<char>>,
    lists: Seq<Seq<EntityNodeView>>,
    k: nat,
) -> Seq<Alias>
    decreases k,
{
    if k == 0 {
        Seq::empty()
    } else {
        let before = mention_pairs(uuids, lists, (k - 1) as nat);
        if uuids.take(k - 1).contains(uuids[k - 1]) {
            before
        } else {
            before + lists[k - 1].map_values(|n: EntityNodeView| (uuids[k - 1], n.uuid))
        }
    }
}

/// Holds where mentions are those of the pairs, in order.
pub open spec fn are_mentions(
    mentions: Seq<EpisodicEdge>,
    pairs: Seq<Alias>,
    group_id: Seq<char>,
    now: Timestamp,
) -> bool {
    &&& mentions.len() == pairs.len()
    &&& forall|i: int|
        0 <= i < pairs.len() ==> bulk::is_mention(
            (#[trigger] mentions[i])@,
            pairs[i].0,
            pairs[i].1,
            group_id,
            now,
        )
}

fn is_repeated(episodes: &Vec<EpisodicNode>, at: usize) -> (r: bool)
    requires
        at < episodes@.len(),
    ensures
        r == episode_uuids(episodes@).take(at as int).contains(episode_uuids(episodes@)[at as int]),
{
    let ghost all = episode_uuids(episodes@);
    let mut i: usize = 0;
    assert(all[at as int] == episodes@[at as int]@.uuid);
    while i < at
        invariant
            i <= at < episodes@.len(),
            all == episode_uuids(episodes@),
            all[at as int] == episodes@[at as int]@.uuid,
            forall|j: int| 0 <= j < i ==> #[trigger] all[j] != all[at as int],
        decreases at - i,
    {
        assert(all[i as int] == episodes@[i as int]@.uuid);
        if str_eq(episodes[i].uuid.as_str(), episodes[at].uuid.as_str()) {
            assert(all.take(at as int)[i as int] == all[at as int]);
            return true;
        }
        i += 1;
    }
    proof {
        if all.take(at as int).contains(all[at as int]) {
            let j = choose|j: int| 0 <= j < at && all.take(at as int)[j] == all[at as int];
            assert(all[j] == all[at as int]);
        }
    }
    false
}

/// The mentions of the entities of each episode.
pub fn mention_all(context: &BulkContext, lists: &Vec<Vec<EntityNode>>) -> (r: Vec<EpisodicEdge>)
    requires
        lists@.len() == context.episodes@.len(),
    ensures
        are_mentions(
            r@,
            mention_pairs(
                episode_uuids(context.episodes@),
                node_ops::node_list_views(lists@),
                lists@.len(),
            ),
            context.group_id@,
            context.now,
        ),
{
    let ghost uuids = episode_uuids(context.episodes@);
    let ghost all = node_ops::node_list_views(lists@);
    let mut out: Vec<EpisodicEdge> = Vec::new();
    let mut i: usize = 0;
    while i < lists.len()
        invariant
            i <= lists@.len(),
            lists@.len() == context.episodes@.len(),
            uuids == episode_uuids(context.episodes@),
            all == node_ops::node_list_views(lists@),
            are_mentions(
                out@,
                mention_pairs(uuids, all, i as nat),
                context.group_id@,
                context.now,
            ),
        decreases lists.len() - i,
    {
        let ghost before = out@;
        let ghost pairs = mention_pairs(uuids, all, i as nat);
        let ghost next = mention_pairs(uuids, all, (i + 1) as nat);
        assert(uuids[i as int] == context.episodes@[i as int]@.uuid);
        assert(all[i as int] == types::node_views(lists@[i as int]@));
        if !is_repeated(&context.episodes, i) {
            let mut more = build_mentions(
                context.episodes[i].uuid.as_str(),
                &lists[i],
                context.group_id.as_str(),
                context.now,
            );
            let ghost added = more@;
            out.append(&mut more);
            proof {
                assert(out@ =~= before + added);
                assert(next =~= pairs + all[i as int].map_values(
                    |n: EntityNodeView| (uuids[i as int], n.uuid),
                ));
                assert forall|j: int| 0 <= j < next.len() implies bulk::is_mention(
                    (#[trigger] out@[j])@,
                    next[j].0,
                    next[j].1,
                    context.group_id@,
                    context.now,
                ) by {
                    if j < pairs.len() {
                        assert(out@[j] == before[j]);
                    } else {
                        assert(out@[j] == added[j - pairs.len()]);
                        assert(all[i as int][j - pairs.len()] == lists@[i as int]@[j
                            - pairs.len()]@);
                    }
                }
            }
        }
        i += 1;
    }
    out
}

/// The lists of facts between what their entities stand for.
pub open spec fn pointed_lists(
    lists: Seq<Seq<EntityEdgeView>>,
    m: Map<Seq<char>, Seq<char>>,
) -> Seq<Seq<EntityEdgeView>> {
    lists.map_values(|l: Seq<EntityEdgeView>| l.map_values(|e: EntityEdgeView| bulk::pointed(e, m)))
}

/// Points the facts of each list at what their entities stand for.
pub fn point_lists(lists: &Vec<Vec<EntityEdge>>, uuid_map: &StringMap<String>) -> (r: Vec<
    Vec<EntityEdge>,
>)
    ensures
        bulk_dedup::edge_list_views(r@) == pointed_lists(
            bulk_dedup::edge_list_views(lists@),
            uuid_map::text_map(uuid_map@),
        ),
{
    let ghost goal = pointed_lists(
        bulk_dedup::edge_list_views(lists@),
        uuid_map::text_map(uuid_map@),
    );
    let mut out: Vec<Vec<EntityEdge>> = Vec::new();
    let mut i: usize = 0;
    while i < lists.len()
        invariant
            i <= lists@.len(),
            goal == pointed_lists(
                bulk_dedup::edge_list_views(lists@),
                uuid_map::text_map(uuid_map@),
            ),
            out@.len() == i,
            forall|j: int| 0 <= j < i ==> types::edge_views((#[trigger] out@[j])@) == goal[j],
        decreases lists.len() - i,
    {
        let mut list = clone_edges(&lists[i]);
        assert(
            bulk_dedup::edge_list_views(lists@)[i as int] == types::edge_views(lists@[i as int]@)
        );
        resolve_edge_pointers(&mut list, uuid_map);
        out.push(list);
        i += 1;
    }
    assert(bulk_dedup::edge_list_views(out@) =~= goal);
    out
}

/// The entities that were extracted from each episode are to be resolved.
#[derive(Debug)]
pub struct BulkNodes {
    pub context: BulkContext,
    /// The facts that were extracted from each episode.
    pub facts: Vec<Vec<EntityEdge>>,
}

/// The facts without an embedding are to be embedded.
#[derive(Debug)]
pub struct BulkFacts {
    pub context: BulkContext,
    pub nodes: Vec<Vec<EntityNode>>,
    pub mentions: Vec<EpisodicEdge>,
    pub facts: Vec<Vec<EntityEdge>>,
}

/// What stands for the entities of each episode of a batch.
pub open spec fn batch_lists(
    uuids: Seq<Seq<char>>,
    outcomes: Seq<NodeOutcomeView>,
) -> Seq<Seq<EntityNodeView>> {
    lists_of(
        uuids,
        outcomes.map_values(
            |o: NodeOutcomeView|
                bulk_dedup::projected(
                    o.nodes,
                    bulk_dedup::batch_map(outcomes),
                    bulk_dedup::batch(bulk_dedup::all_nodes(outcomes)).pool,
                ),
        ),
    )
}

impl BulkNodes {
    /// Takes what the entities of each episode resolved to: merges them across the batch, mentions
    /// them in their episodes, and points the facts at them.
    pub fn take_outcomes(self, outcomes: &Vec<NodeResolutionOutcome>) -> (r: BulkFacts)
        ensures
            r.context == self.context,
            node_ops::node_list_views(r.nodes@) == batch_lists(
                episode_uuids(self.context.episodes@),
                bulk_dedup::outcome_views(outcomes@),
            ),
            are_mentions(
                r.mentions@,
                mention_pairs(
                    episode_uuids(self.context.episodes@),
                    batch_lists(
                        episode_uuids(self.context.episodes@),
                        bulk_dedup::outcome_views(outcomes@),
                    ),
                    self.context.episodes@.len(),
                ),
                self.context.group_id@,
                self.context.now,
            ),
            bulk_dedup::edge_list_views(r.facts@) == pointed_lists(
                bulk_dedup::edge_list_views(self.facts@),
                bulk_dedup::batch_map(bulk_dedup::outcome_views(outcomes@)),
            ),
    {
        let (lists, map) = dedupe_resolved_nodes(outcomes);
        let nodes = nodes_by_episode(&self.context.episodes, &lists);
        assert(node_ops::node_list_views(nodes@).len() == nodes@.len());
        let mentions = mention_all(&self.context, &nodes);
        let facts = point_lists(&self.facts, &map);
        BulkFacts { context: self.context, nodes, mentions, facts }
    }
}

/// How many facts without an embedding come before the list at `i`.
pub open spec fn embeddings_before(lists: Seq<Seq<EntityEdgeView>>, i: int) -> nat
    decreases i,
{
    if i <= 0 {
        0
    } else {
        embeddings_before(lists, i - 1) + bulk::unembedded_facts(lists[i - 1]).len()
    }
}

/// The lists once the embeddings were handed to the facts without one, in order, as far as they
/// reach.
pub open spec fn embedded_lists(
    lists: Seq<Seq<EntityEdgeView>>,
    embeddings: Seq<Embedding>,
) -> Seq<Seq<EntityEdgeView>> {
    lists.map(
        |i: int, l: Seq<EntityEdgeView>|
            Seq::new(
                l.len(),
                |j: int| bulk::embedded_fact(l, embeddings, embeddings_before(lists, i) as int, j),
            ),
    )
}

/// The texts of the facts without an embedding, one list after the other.
pub open spec fn unembedded_in(lists: Seq<Seq<EntityEdgeView>>, k: nat) -> Seq<Seq<char>>
    decreases k,
{
    if k == 0 {
        Seq::empty()
    } else {
        unembedded_in(lists, (k - 1) as nat) + bulk::unembedded_facts(lists[k - 1])
    }
}

impl BulkFacts {
    /// The texts to embed.
    pub fn texts(&self) -> (r: Vec<String>)
        ensures
            text::views(r@) == unembedded_in(
                bulk_dedup::edge_list_views(self.facts@),
                self.facts@.len(),
            ),
    {
        let ghost all = bulk_dedup::edge_list_views(self.facts@);
        let mut out: Vec<String> = Vec::new();
        let mut i: usize = 0;
        assert(text::views(out@) =~= unembedded_in(all, 0));
        while i < self.facts.len()
            invariant
                i <= self.facts@.len(),
                all == bulk_dedup::edge_list_views(self.facts@),
                text::views(out@) == unembedded_in(all, i as nat),
            decreases self.facts.len() - i,
        {
            let mut more = facts_without_embedding(&self.facts[i]);
            let ghost before = out@;
            let ghost added = more@;
            out.append(&mut more);
            assert(all[i as int] == types::edge_views(self.facts@[i as int]@));
            assert(text::views(out@) =~= text::views(before) + text::views(added));
            i += 1;
        }
        out
    }

    /// Takes the embeddings, which come in the order of the texts.
    pub fn take_embeddings(self, embeddings: &Vec<Embedding>) -> (r: BulkPairs)
        ensures
            r.context == self.context,
            r.nodes == self.nodes,
            r.mentions == self.mentions,
            bulk_dedup::edge_list_views(r.facts@) == embedded_lists(
                bulk_dedup::edge_list_views(self.facts@),
                embeddings@,
            ),
    {
        let ghost all = bulk_dedup::edge_list_views(self.facts@);
        let ghost goal = embedded_lists(all, embeddings@);
        let lists = self.facts;
        let mut out: Vec<Vec<EntityEdge>> = Vec::new();
        let mut from: usize = 0;
        let mut i: usize = 0;
        while i < lists.len()
            invariant
                i <= lists@.len(),
                all == bulk_dedup::edge_list_views(lists@),
                goal == embedded_lists(all, embeddings@),
                from == bulk::at_most(
                    embeddings_before(all, i as int) as int,
                    embeddings@.len() as int,
                ),
                out@.len() == i,
                forall|j: int| 0 <= j < i ==> types::edge_views((#[trigger] out@[j])@) == goal[j],
            decreases lists.len() - i,
        {
            let mut edges = clone_edges(&lists[i]);
            assert(all[i as int] == types::edge_views(lists@[i as int]@));
            assert(types::edge_views(edges@).len() == edges@.len());
            from = fill_fact_embeddings(&mut edges, embeddings, from);
            assert(types::edge_views(edges@) =~= goal[i as int]);
            out.push(edges);
            i += 1;
        }
        assert(bulk_dedup::edge_list_views(out@) =~= goal);
        BulkPairs { context: self.context, nodes: self.nodes, mentions: self.mentions, facts: out }
    }
}

/// The facts of the batch that may be the same are to be compared.
#[derive(Debug)]
pub struct BulkPairs {
    pub context: BulkContext,
    pub nodes: Vec<Vec<EntityNode>>,
    pub mentions: Vec<EpisodicEdge>,
    pub facts: Vec<Vec<EntityEdge>>,
}

/// The lists once each fact is what stands for it, by what the facts resolved to.
pub open spec fn projected_lists(
    lists: Seq<Seq<EntityEdgeView>>,
    resolved: Seq<EntityEdgeView>,
) -> Seq<Seq<EntityEdgeView>> {
    let all = bulk_dedup::flattened(lists);
    lists.map_values(
        |l: Seq<EntityEdgeView>|
            l.map_values(
                |e: EntityEdgeView|
                    bulk_dedup::projected_fact(
                        e,
                        all,
                        uuid_map::smallest_roots(bulk_dedup::fact_aliases(all, resolved)),
                    ),
            ),
    )
}

/// The identifiers of the entities in the first `k` lists.
pub open spec fn nodes_before(lists: Seq<Seq<EntityNodeView>>, k: nat) -> Set<Seq<char>>
    decreases k,
{
    if k == 0 {
        Set::empty()
    } else {
        nodes_before(lists, (k - 1) as nat).union(node_ops::uuids_of(lists[k - 1]))
    }
}

/// The lists without the entities that an earlier list has.
pub open spec fn first_nodes(lists: Seq<Seq<EntityNodeView>>) -> Seq<Seq<EntityNodeView>> {
    lists.map(
        |i: int, l: Seq<EntityNodeView>| bulk::unseen_nodes(l, nodes_before(lists, i as nat)),
    )
}

/// The identifiers of the facts in the first `k` lists.
pub open spec fn edges_before(lists: Seq<Seq<EntityEdgeView>>, k: nat) -> Set<Seq<char>>
    decreases k,
{
    if k == 0 {
        Set::empty()
    } else {
        edges_before(lists, (k - 1) as nat).union(edge_ops::edge_uuids(lists[k - 1]))
    }
}

/// The lists without the facts that an earlier list has.
pub open spec fn first_edges(lists: Seq<Seq<EntityEdgeView>>) -> Seq<Seq<EntityEdgeView>> {
    lists.map(
        |i: int, l: Seq<EntityEdgeView>| bulk::unseen_edges(l, edges_before(lists, i as nat)),
    )
}

/// Leaves each entity in the first list that has it.
pub fn keep_first_nodes(lists: &Vec<Vec<EntityNode>>) -> (r: Vec<Vec<EntityNode>>)
    ensures
        node_ops::node_list_views(r@) == first_nodes(node_ops::node_list_views(lists@)),
{
    let ghost all = node_ops::node_list_views(lists@);
    let mut seen = StringSet::new();
    let mut out: Vec<Vec<EntityNode>> = Vec::new();
    let mut i: usize = 0;
    assert(seen@ =~= nodes_before(all, 0));
    while i < lists.len()
        invariant
            i <= lists@.len(),
            all == node_ops::node_list_views(lists@),
            seen@ == nodes_before(all, i as nat),
            out@.len() == i,
            forall|j: int| 0 <= j < i ==> types::node_views((#[trigger] out@[j])@) == first_nodes(all)[j],
        decreases lists.len() - i,
    {
        assert(all[i as int] == types::node_views(lists@[i as int]@));
        let list = take_unseen_nodes(&lists[i], &mut seen);
        out.push(list);
        i += 1;
    }
    assert(node_ops::node_list_views(out@) =~= first_nodes(all));
    out
}

/// Leaves each fact in the first list that has it.
pub fn keep_first_edges(lists: &Vec<Vec<EntityEdge>>) -> (r: Vec<Vec<EntityEdge>>)
    ensures
        bulk_dedup::edge_list_views(r@) == first_edges(bulk_dedup::edge_list_views(lists@)),
{
    let ghost all = bulk_dedup::edge_list_views(lists@);
    let mut seen = StringSet::new();
    let mut out: Vec<Vec<EntityEdge>> = Vec::new();
    let mut i: usize = 0;
    assert(seen@ =~= edges_before(all, 0));
    while i < lists.len()
        invariant
            i <= lists@.len(),
            all == bulk_dedup::edge_list_views(lists@),
            seen@ == edges_before(all, i as nat),
            out@.len() == i,
            forall|j: int| 0 <= j < i ==> types::edge_views((#[trigger] out@[j])@) == first_edges(all)[j],
        decreases lists.len() - i,
    {
        assert(all[i as int] == types::edge_views(lists@[i as int]@));
        let list = take_unseen_edges(&lists[i], &mut seen);
        out.push(list);
        i += 1;
    }
    assert(bulk_dedup::edge_list_views(out@) =~= first_edges(all));
    out
}

impl BulkPairs {
    /// All facts of the batch. Each is to be resolved against the facts of the batch that may be
    /// the same.
    pub fn pool(&self) -> (r: Vec<EntityEdge>)
        ensures
            types::edge_views(r@) == bulk_dedup::flattened(
                bulk_dedup::edge_list_views(self.facts@),
            ),
    {
        flatten_edges(&self.facts)
    }

    /// Takes what the facts of the batch resolved to, in the order of the pool.
    pub fn take_resolved(self, resolved: &Vec<EntityEdge>) -> (r: BulkReconcile)
        ensures
            r.context == self.context,
            r.mentions == self.mentions,
            node_ops::node_list_views(r.nodes@) == first_nodes(
                node_ops::node_list_views(self.nodes@),
            ),
            bulk_dedup::edge_list_views(r.facts@) == lists_of(
                episode_uuids(self.context.episodes@),
                projected_lists(
                    bulk_dedup::edge_list_views(self.facts@),
                    types::edge_views(resolved@),
                ),
            ),
    {
        let pool = flatten_edges(&self.facts);
        let pairs = duplicate_pairs(&pool, resolved);
        let lists = project_edges(&self.facts, pairs.as_slice());
        assert(bulk_dedup::edge_list_views(lists@) =~= projected_lists(
            bulk_dedup::edge_list_views(self.facts@),
            types::edge_views(resolved@),
        ));
        let facts = edges_by_episode(&self.context.episodes, &lists);
        let nodes = keep_first_nodes(&self.nodes);
        BulkReconcile { context: self.context, mentions: self.mentions, nodes, facts }
    }
}

/// The entities of each episode are to be resolved once more, and summarized.
#[derive(Debug)]
pub struct BulkReconcile {
    pub context: BulkContext,
    pub mentions: Vec<EpisodicEdge>,
    pub nodes: Vec<Vec<EntityNode>>,
    pub facts: Vec<Vec<EntityEdge>>,
}

/// The views of identifier maps.
pub open spec fn map_views(maps: Seq<StringMap<String>>) -> Seq<Map<Seq<char>, Seq<char>>> {
    maps.map_values(|m: StringMap<String>| uuid_map::text_map(m@))
}

/// The entries of the first `k` maps, those of later ones over those of earlier ones.
pub open spec fn united(maps: Seq<Map<Seq<char>, Seq<char>>>, k: nat) -> Map<Seq<char>, Seq<char>>
    decreases k,
{
    if k == 0 {
        Map::empty()
    } else {
        united(maps, (k - 1) as nat).union_prefer_right(maps[k - 1])
    }
}

/// The entries of all maps, those of later ones over those of earlier ones.
pub fn unite_maps(maps: &Vec<StringMap<String>>) -> (r: StringMap<String>)
    ensures
        uuid_map::text_map(r@) == united(map_views(maps@), maps@.len()),
{
    let ghost all = map_views(maps@);
    let mut out: StringMap<String> = StringMap::new();
    let mut i: usize = 0;
    assert(uuid_map::text_map(out@) =~= united(all, 0));
    while i < maps.len()
        invariant
            i <= maps@.len(),
            all == map_views(maps@),
            uuid_map::text_map(out@) == united(all, i as nat),
        decreases maps.len() - i,
    {
        assert(all[i as int] == uuid_map::text_map(maps@[i as int]@));
        extend_uuid_map(&mut out, &maps[i]);
        i += 1;
    }
    out
}

impl BulkReconcile {
    /// Takes the entities of each episode as they resolved and were summarized, and the identifier
    /// maps of their resolutions: points mentions and facts at them.
    pub fn take_nodes(self, nodes: &Vec<Vec<EntityNode>>, maps: &Vec<StringMap<String>>) -> (r:
        BulkEdges)
        ensures
            r.context == self.context,
            types::node_views(r.nodes@) == found::in_order(found::list_views(nodes@)),
            bulk::mention_views(r.mentions@) == bulk::mention_views(self.mentions@).map_values(
                |e: EpisodicEdgeView|
                    EpisodicEdgeView {
                        target_node_uuid: bulk::canonical(
                            united(map_views(maps@), maps@.len()),
                            e.target_node_uuid,
                        ),
                        ..e
                    },
            ),
            bulk_dedup::edge_list_views(r.facts@) == first_edges(
                pointed_lists(
                    bulk_dedup::edge_list_views(self.facts@),
                    united(map_views(maps@), maps@.len()),
                ),
            ),
    {
        let map = unite_maps(maps);
        let all = flatten(nodes);
        assert(types::node_views(all@) =~= found::item_views(all@));
        let mut mentions = self.mentions;
        resolve_episodic_edge_pointers(&mut mentions, &map);
        let lists = point_lists(&self.facts, &map);
        let facts = keep_first_edges(&lists);
        BulkEdges { context: self.context, mentions, nodes: all, facts }
    }
}

/// The facts of each episode are to be resolved against what is stored.
#[derive(Debug)]
pub struct BulkEdges {
    pub context: BulkContext,
    pub mentions: Vec<EpisodicEdge>,
    pub nodes: Vec<EntityNode>,
    pub facts: Vec<Vec<EntityEdge>>,
}

/// What the facts of the first `k` episodes resolved to.
pub open spec fn resolved_in(outcomes: Seq<EdgeResolutionOutcome>, k: nat) -> Seq<EntityEdge>
    decreases k,
{
    if k == 0 {
        Seq::empty()
    } else {
        resolved_in(outcomes, (k - 1) as nat) + outcomes[k - 1].resolved_edges@
    }
}

/// What the facts of the first `k` episodes put an end to.
pub open spec fn invalidated_in(outcomes: Seq<EdgeResolutionOutcome>, k: nat) -> Seq<EntityEdge>
    decreases k,
{
    if k == 0 {
        Seq::empty()
    } else {
        invalidated_in(outcomes, (k - 1) as nat) + outcomes[k - 1].invalidated_edges@
    }
}

impl BulkEdges {
    /// Takes what the facts of each episode resolved to: all that they resolved to, and then all
    /// that they put an end to.
    pub fn take_outcomes(self, outcomes: &Vec<EdgeResolutionOutcome>) -> (r: BulkBatch)
        ensures
            r.context == self.context,
            r.mentions == self.mentions,
            r.nodes == self.nodes,
            types::edge_views(r.edges@) == types::edge_views(
                resolved_in(outcomes@, outcomes@.len()),
            )
                + types::edge_views(invalidated_in(outcomes@, outcomes@.len())),
    {
        let mut edges: Vec<EntityEdge> = Vec::new();
        let mut ended: Vec<EntityEdge> = Vec::new();
        let mut i: usize = 0;
        assert(types::edge_views(edges@) =~= types::edge_views(resolved_in(outcomes@, 0)));
        assert(types::edge_views(ended@) =~= types::edge_views(invalidated_in(outcomes@, 0)));
        while i < outcomes.len()
            invariant
                i <= outcomes@.len(),
                types::edge_views(edges@) == types::edge_views(resolved_in(outcomes@, i as nat)),
                types::edge_views(ended@) == types::edge_views(invalidated_in(outcomes@, i as nat)),
            decreases outcomes.len() - i,
        {
            let mut more = clone_edges(&outcomes[i].resolved_edges);
            let mut gone = clone_edges(&outcomes[i].invalidated_edges);
            let ghost before = edges@;
            let ghost ended_before = ended@;
            let ghost more_added = more@;
            let ghost gone_added = gone@;
            edges.append(&mut more);
            ended.append(&mut gone);
            proof {
                assert(
                    types::edge_views(edges@) =~= types::edge_views(before) + types::edge_views(
                        more_added,
                    )
                );
                assert(
                    types::edge_views(ended@) =~= types::edge_views(ended_before) + types::edge_views(
                        gone_added,
                    )
                );
                assert(types::edge_views(resolved_in(outcomes@, (i + 1) as nat)) =~= types::edge_views(
                    resolved_in(outcomes@, i as nat),
                ) + types::edge_views(outcomes@[i as int].resolved_edges@));
                assert(types::edge_views(invalidated_in(outcomes@, (i + 1) as nat)) =~= types::edge_views(
                    invalidated_in(outcomes@, i as nat),
                ) + types::edge_views(outcomes@[i as int].invalidated_edges@));
            }
            i += 1;
        }
        let ghost first = edges@;
        let ghost second = ended@;
        edges.append(&mut ended);
        assert(types::edge_views(edges@) =~= types::edge_views(first) + types::edge_views(second));
        BulkBatch { context: self.context, mentions: self.mentions, nodes: self.nodes, edges }
    }
}

/// What is stored of a batch of episodes.
#[derive(Debug)]
pub struct BulkBatch {
    pub context: BulkContext,
    pub mentions: Vec<EpisodicEdge>,
    pub nodes: Vec<EntityNode>,
    pub edges: Vec<EntityEdge>,
}

impl BulkBatch {
    /// Takes the embeddings of the names and of the facts that have none.
    pub fn take_embeddings(self, names: &Vec<Embedding>, facts: &Vec<Embedding>) -> (r: BulkBatch)
        ensures
            r.context == self.context,
            r.mentions == self.mentions,
            types::node_views(r.nodes@) == Seq::new(
                self.nodes@.len(),
                |i: int| bulk::embedded_name(types::node_views(self.nodes@), names@, i),
            ),
            types::edge_views(r.edges@) == Seq::new(
                self.edges@.len(),
                |i: int| bulk::embedded_fact(types::edge_views(self.edges@), facts@, 0, i),
            ),
    {
        let mut nodes = self.nodes;
        let mut edges = self.edges;
        fill_name_embeddings(&mut nodes, names);
        let _ = fill_fact_embeddings(&mut edges, facts, 0);
        BulkBatch { context: self.context, mentions: self.mentions, nodes, edges }
    }

    /// The results.
    pub fn finish(self) -> (r: AddBulkEpisodeResults)
        ensures
            r.episodes == self.context.episodes,
            r.episodic_edges == self.mentions,
            r.nodes == self.nodes,
            r.edges == self.edges,
            r.communities@.len() == 0,
            r.community_edges@.len() == 0,
    {
        AddBulkEpisodeResults::new(self.context.episodes, self.mentions, self.nodes, self.edges)
    }
}

proof fn lemma_unseen_nodes(nodes: Seq<EntityNodeView>, seen: Set<Seq<char>>)
    ensures
        forall|a: int|
            0 <= a < bulk::unseen_nodes(nodes, seen).len() ==> {
                &&& !seen.contains((#[trigger] bulk::unseen_nodes(nodes, seen)[a]).uuid)
                &&& node_ops::uuids_of(nodes).contains(bulk::unseen_nodes(nodes, seen)[a].uuid)
            },
        forall|a: int, b: int|
            0 <= a < b < bulk::unseen_nodes(nodes, seen).len() ==> (#[trigger] bulk::unseen_nodes(
                nodes,
                seen,
            )[a]).uuid != (#[trigger] bulk::unseen_nodes(nodes, seen)[b]).uuid,
    decreases nodes.len(),
{
    if nodes.len() > 0 {
        let init = nodes.drop_last();
        lemma_unseen_nodes(init, seen);
        node_ops::lemma_uuids_push(init, nodes.last());
        assert(init.push(nodes.last()) =~= nodes);
        let before = bulk::unseen_nodes(init, seen);
        let after = bulk::unseen_nodes(nodes, seen);
        assert forall|a: int| 0 <= a < after.len() implies {
            &&& !seen.contains((#[trigger] after[a]).uuid)
            &&& node_ops::uuids_of(nodes).contains(after[a].uuid)
        } by {
            if a < before.len() {
                assert(after[a] == before[a]);
            }
        }
        assert forall|a: int, b: int| 0 <= a < b < after.len() implies (#[trigger] after[a]).uuid
            != (#[trigger] after[b]).uuid by {
            assert(after[a] == before[a]);
            assert(node_ops::uuids_of(init).contains(before[a].uuid));
            if b < before.len() {
                assert(after[b] == before[b]);
            }
        }
    }
}

proof fn lemma_nodes_before(lists: Seq<Seq<EntityNodeView>>, i: int, k: int, uuid: Seq<char>)
    requires
        0 <= i < k <= lists.len(),
        node_ops::uuids_of(lists[i]).contains(uuid),
    ensures
        nodes_before(lists, k as nat).contains(uuid),
    decreases k,
{
    if i < k - 1 {
        lemma_nodes_before(lists, i, k - 1, uuid);
    }
}

/// Across the episodes of a batch each entity is handed to the last resolution once, however many
/// episodes mention it.
pub proof fn law_each_entity_is_resolved_once(
    lists: Seq<Seq<EntityNodeView>>,
    i: int,
    a: int,
    j: int,
    b: int,
)
    requires
        0 <= i <= j < lists.len(),
        0 <= a < first_nodes(lists)[i].len(),
        0 <= b < first_nodes(lists)[j].len(),
        i == j ==> a < b,
    ensures
        first_nodes(lists)[i][a].uuid != first_nodes(lists)[j][b].uuid,
{
    lemma_unseen_nodes(lists[i], nodes_before(lists, i as nat));
    lemma_unseen_nodes(lists[j], nodes_before(lists, j as nat));
    let first = bulk::unseen_nodes(lists[i], nodes_before(lists, i as nat));
    let second = bulk::unseen_nodes(lists[j], nodes_before(lists, j as nat));
    assert(first_nodes(lists)[i] == first);
    assert(first_nodes(lists)[j] == second);
    assert(node_ops::uuids_of(lists[i]).contains(first[a].uuid));
    if i < j {
        lemma_nodes_before(lists, i, j, first[a].uuid);
        assert(!nodes_before(lists, j as nat).contains(second[b].uuid));
    }
}

} // verus!
