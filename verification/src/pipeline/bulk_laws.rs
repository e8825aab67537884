//! What the ingestion of episodes keeps to, stated on the lists and maps that go in and come out.
use crate::chronicle::AddEpisodeRequest;
use crate::helpers;
use crate::pipeline::add_episode;
use crate::pipeline::bulk::{self, RawEpisode};
use crate::pipeline::bulk_dedup;
use crate::pipeline::bulk_ingest;
use crate::pipeline::dedup_index;
use crate::pipeline::edge_ops::{self, EdgeResolutionOutcome};
use crate::pipeline::maintenance;
use crate::pipeline::node_ops;
use crate::pipeline::uuid_map::{self, Alias};
use crate::selection;
use crate::text;
use crate::time::Timestamp;
use crate::types::Embedding;
use crate::types::edge::{EntityEdge, EntityEdgeView, EpisodicEdgeView};
use crate::types::episode::{EpisodeType, EpisodicNodeView};
use crate::types::node::EntityNodeView;
use vstd::prelude::*;

verus! {

/// A fact is pointed at what a map gives for its two entities, each on its own side; an entity that
/// the map does not have stays, and so does everything else of the fact.
pub proof fn law_facts_are_pointed(e: EntityEdgeView, m: Map<Seq<char>, Seq<char>>)
    ensures
        ({
            let p = bulk::pointed(e, m);
            &&& p == EntityEdgeView {
                source_node_uuid: p.source_node_uuid,
                target_node_uuid: p.target_node_uuid,
                ..e
            }
            &&& m.dom().contains(e.source_node_uuid) ==> p.source_node_uuid
                == m[e.source_node_uuid]
            &&& !m.dom().contains(e.source_node_uuid) ==> p.source_node_uuid == e.source_node_uuid
            &&& m.dom().contains(e.target_node_uuid) ==> p.target_node_uuid
                == m[e.target_node_uuid]
            &&& !m.dom().contains(e.target_node_uuid) ==> p.target_node_uuid == e.target_node_uuid
        }),
        m.dom().contains(e.uuid) ==> bulk::canonical(m, e.uuid) == m[e.uuid],
        !m.dom().contains(e.uuid) ==> bulk::canonical(m, e.uuid) == e.uuid,
{
}

/// A mention leads from the episode to the entity.
pub proof fn law_mentions_lead_to_entities(
    edge: EpisodicEdgeView,
    episode_uuid: Seq<char>,
    node_uuid: Seq<char>,
    group_id: Seq<char>,
    now: Timestamp,
)
    requires
        bulk::is_mention(edge, episode_uuid, node_uuid, group_id, now),
    ensures
        edge.source_node_uuid == episode_uuid,
        edge.target_node_uuid == node_uuid,
        edge.group_id == group_id,
        edge.created_at == now,
{
}

/// A fresh episode holds what was handed over: it was true at the time that was given, and was made
/// now.
pub proof fn law_fresh_episodes_hold_what_was_given(
    e: EpisodicNodeView,
    raw: RawEpisode,
    req: AddEpisodeRequest,
    group_id: Seq<char>,
    now: Timestamp,
)
    ensures
        bulk::is_fresh_episode(e, raw, group_id, now) ==> {
            &&& e.name == raw.name@
            &&& e.group_id == group_id
            &&& e.source == raw.source
            &&& e.source_description == raw.source_description@
            &&& e.content == raw.content@
            &&& e.created_at == now
            &&& e.valid_at == raw.reference_time
            &&& e.entity_edges.len() == 0
        },
        add_episode::is_requested(e, req, now) ==> {
            &&& e.name == req.name@
            &&& e.group_id == req.group_id@
            &&& e.source == req.source
            &&& e.source_description == req.source_description@
            &&& e.content == req.episode_body@
            &&& e.created_at == now
            &&& e.valid_at == req.reference_time
            &&& e.entity_edges.len() == 0
        },
        maintenance::is_empty_episode(e, group_id, now) ==> {
            &&& e.group_id == group_id
            &&& e.valid_at == now
            &&& e.content.len() == 0
            &&& e.name.len() == 0
            &&& e.source == EpisodeType::Text
            &&& e.entity_edges.len() == 0
        },
{
}

/// Every entity gets the summary at its position and keeps everything else; an entity for which none
/// came stays as it is.
pub proof fn law_entities_get_their_summaries(
    nodes: Seq<EntityNodeView>,
    summaries: Seq<Seq<char>>,
    i: int,
)
    requires
        0 <= i < nodes.len(),
    ensures
        add_episode::summarized(nodes, summaries).len() == nodes.len(),
        i < summaries.len() ==> add_episode::summarized(nodes, summaries)[i] == (EntityNodeView {
            summary: summaries[i],
            ..nodes[i]
        }),
        i >= summaries.len() ==> add_episode::summarized(nodes, summaries)[i] == nodes[i],
{
}

/// The texts that are to be embedded are those of the facts without an embedding, in order; so many
/// of them come before a fact as facts without an embedding do.
pub proof fn law_facts_without_embedding_are_listed(edges: Seq<EntityEdgeView>) -> (at: Seq<int>)
    ensures
        selection::selects(
            edges,
            bulk::unembedded_facts(edges),
            at,
            |i: int, e: EntityEdgeView| e.fact_embedding is None,
            |e: EntityEdgeView| e.fact,
        ),
        forall|k: int|
            0 <= k < at.len() ==> bulk::unembedded_facts(edges.take(#[trigger] at[k])).len() == k,
    decreases edges.len(),
{
    let keep = |i: int, e: EntityEdgeView| e.fact_embedding is None;
    let make = |e: EntityEdgeView| e.fact;
    if edges.len() == 0 {
        Seq::empty()
    } else {
        let init = edges.drop_last();
        let n = edges.len() - 1;
        let before = law_facts_without_embedding_are_listed(init);
        selection::lemma_selects_next(
            edges,
            bulk::unembedded_facts(init),
            before,
            keep,
            keep,
            make,
        );
        assert forall|k: int| 0 <= k < before.len() implies bulk::unembedded_facts(
            edges.take(#[trigger] before[k]),
        ).len() == k by {
            assert(init.take(before[k]) =~= edges.take(before[k]));
        }
        assert(edges.take(n) =~= init);
        if keep(n, edges.last()) {
            let at = before.push(n);
            assert forall|k: int| 0 <= k < at.len() implies bulk::unembedded_facts(
                edges.take(#[trigger] at[k]),
            ).len() == k by {
                if k < before.len() {
                    assert(at[k] == before[k]);
                }
            }
            at
        } else {
            before
        }
    }
}

/// The same of the names of entities.
pub proof fn law_names_without_embedding_are_listed(nodes: Seq<EntityNodeView>) -> (at: Seq<int>)
    ensures
        selection::selects(
            nodes,
            bulk::unembedded_names(nodes),
            at,
            |i: int, n: EntityNodeView| n.name_embedding is None,
            |n: EntityNodeView| n.name,
        ),
        forall|k: int|
            0 <= k < at.len() ==> bulk::unembedded_names(nodes.take(#[trigger] at[k])).len() == k,
    decreases nodes.len(),
{
    let keep = |i: int, n: EntityNodeView| n.name_embedding is None;
    let make = |n: EntityNodeView| n.name;
    if nodes.len() == 0 {
        Seq::empty()
    } else {
        let init = nodes.drop_last();
        let n = nodes.len() - 1;
        let before = law_names_without_embedding_are_listed(init);
        selection::lemma_selects_next(
            nodes,
            bulk::unembedded_names(init),
            before,
            keep,
            keep,
            make,
        );
        assert forall|k: int| 0 <= k < before.len() implies bulk::unembedded_names(
            nodes.take(#[trigger] before[k]),
        ).len() == k by {
            assert(init.take(before[k]) =~= nodes.take(before[k]));
        }
        assert(nodes.take(n) =~= init);
        if keep(n, nodes.last()) {
            let at = before.push(n);
            assert forall|k: int| 0 <= k < at.len() implies bulk::unembedded_names(
                nodes.take(#[trigger] at[k]),
            ).len() == k by {
                if k < before.len() {
                    assert(at[k] == before[k]);
                }
            }
            at
        } else {
            before
        }
    }
}

/// An embedding goes to the fact whose text it was made from: the k-th text to embed is that of a
/// fact, and that fact gets the k-th embedding from where they begin, if there is one. A fact that has
/// an embedding stays as it is.
pub proof fn law_embedding_goes_to_its_fact(
    edges: Seq<EntityEdgeView>,
    embeddings: Seq<Embedding>,
    from: int,
    k: int,
    i: int,
) -> (p: int)
    requires
        from >= 0,
    ensures
        0 <= k < bulk::unembedded_facts(edges).len() ==> {
            &&& 0 <= p < edges.len()
            &&& edges[p].fact == bulk::unembedded_facts(edges)[k]
            &&& from + k < embeddings.len() ==> bulk::embedded_fact(edges, embeddings, from, p) == (
            EntityEdgeView { fact_embedding: Some(embeddings[from + k]@), ..edges[p] })
            &&& from + k >= embeddings.len() ==> bulk::embedded_fact(edges, embeddings, from, p)
                == edges[p]
        },
        0 <= i < edges.len() && edges[i].fact_embedding is Some ==> bulk::embedded_fact(
            edges,
            embeddings,
            from,
            i,
        ) == edges[i],
{
    let at = law_facts_without_embedding_are_listed(edges);
    at[k]
}

/// The same of the names of entities.
pub proof fn law_embedding_goes_to_its_entity(
    nodes: Seq<EntityNodeView>,
    embeddings: Seq<Embedding>,
    k: int,
    i: int,
) -> (p: int)
    ensures
        0 <= k < bulk::unembedded_names(nodes).len() ==> {
            &&& 0 <= p < nodes.len()
            &&& nodes[p].name == bulk::unembedded_names(nodes)[k]
            &&& k < embeddings.len() ==> bulk::embedded_name(nodes, embeddings, p) == (
            EntityNodeView { name_embedding: Some(embeddings[k]@), ..nodes[p] })
            &&& k >= embeddings.len() ==> bulk::embedded_name(nodes, embeddings, p) == nodes[p]
        },
        0 <= i < nodes.len() && nodes[i].name_embedding is Some ==> bulk::embedded_name(
            nodes,
            embeddings,
            i,
        ) == nodes[i],
{
    let at = law_names_without_embedding_are_listed(nodes);
    at[k]
}

/// Across lists of facts an embedding goes to the fact whose text it was made from: the texts of
/// earlier lists come before those of later ones.
pub proof fn law_embeddings_follow_the_lists(
    lists: Seq<Seq<EntityEdgeView>>,
    embeddings: Seq<Embedding>,
    i: int,
    k: int,
) -> (p: int)
    requires
        0 <= i < lists.len(),
        0 <= k < bulk::unembedded_facts(lists[i]).len(),
    ensures
        ({
            let at = bulk_ingest::embeddings_before(lists, i) + k;
            let texts = bulk_ingest::unembedded_in(lists, lists.len());
            let out = bulk_ingest::embedded_lists(lists, embeddings);
            &&& 0 <= p < lists[i].len()
            &&& out.len() == lists.len()
            &&& out[i].len() == lists[i].len()
            &&& at < texts.len()
            &&& texts[at] == lists[i][p].fact
            &&& at < embeddings.len() ==> out[i][p] == (EntityEdgeView {
                fact_embedding: Some(embeddings[at]@),
                ..lists[i][p]
            })
        }),
{
    let from = bulk_ingest::embeddings_before(lists, i) as int;
    let p = law_embedding_goes_to_its_fact(lists[i], embeddings, from, k, 0);
    lemma_texts_of_list(lists, lists.len(), i, k);
    p
}

proof fn lemma_texts_of_list(lists: Seq<Seq<EntityEdgeView>>, n: nat, i: int, k: int)
    requires
        0 <= i < n <= lists.len(),
        0 <= k < bulk::unembedded_facts(lists[i]).len(),
    ensures
        bulk_ingest::embeddings_before(lists, n as int) == bulk_ingest::unembedded_in(lists, n).len(),
        bulk_ingest::embeddings_before(lists, i) + k < bulk_ingest::unembedded_in(lists, n).len(),
        bulk_ingest::unembedded_in(lists, n)[bulk_ingest::embeddings_before(lists, i) + k]
            == bulk::unembedded_facts(lists[i])[k],
    decreases n,
{
    if i < n - 1 {
        lemma_texts_of_list(lists, (n - 1) as nat, i, k);
    } else {
        lemma_texts_before(lists, (n - 1) as nat);
    }
}

proof fn lemma_texts_before(lists: Seq<Seq<EntityEdgeView>>, n: nat)
    ensures
        bulk_ingest::embeddings_before(lists, n as int) == bulk_ingest::unembedded_in(lists, n).len(),
    decreases n,
{
    if n > 0 {
        lemma_texts_before(lists, (n - 1) as nat);
    }
}

/// The entities that are left of a list are those whose identifiers were not seen, the first of those
/// with the same identifier, as they are and in order.
pub proof fn law_seen_entities_go(nodes: Seq<EntityNodeView>, seen: Set<Seq<char>>) -> (at: Seq<int>)
    ensures
        selection::selects(
            nodes,
            bulk::unseen_nodes(nodes, seen),
            at,
            |i: int, n: EntityNodeView|
                !seen.contains(n.uuid) && forall|j: int|
                    0 <= j < i ==> (#[trigger] nodes[j]).uuid != n.uuid,
            |n: EntityNodeView| n,
        ),
    decreases nodes.len(),
{
    let keep = |i: int, n: EntityNodeView|
        !seen.contains(n.uuid) && forall|j: int|
            0 <= j < i ==> (#[trigger] nodes[j]).uuid != n.uuid;
    let make = |n: EntityNodeView| n;
    if nodes.len() == 0 {
        Seq::empty()
    } else {
        let init = nodes.drop_last();
        let last = nodes.last();
        let n = nodes.len() - 1;
        let had = |i: int, n: EntityNodeView|
            !seen.contains(n.uuid) && forall|j: int|
                0 <= j < i ==> (#[trigger] init[j]).uuid != n.uuid;
        let before = law_seen_entities_go(init, seen);
        assert forall|i: int| 0 <= i < n implies had(i, #[trigger] nodes[i]) == keep(i, nodes[i]) by {
            assert forall|j: int| 0 <= j < i implies #[trigger] init[j] == nodes[j] by {}
            if had(i, nodes[i]) {
                assert forall|j: int| 0 <= j < i implies (#[trigger] nodes[j]).uuid
                    != nodes[i].uuid by {
                    assert(init[j] == nodes[j]);
                }
            }
        }
        selection::lemma_selects_next(
            nodes,
            bulk::unseen_nodes(init, seen),
            before,
            had,
            keep,
            make,
        );
        let ids = init.map_values(|n: EntityNodeView| n.uuid);
        assert((seen.contains(last.uuid) || node_ops::uuids_of(init).contains(last.uuid)) == !keep(
            n,
            last,
        )) by {
            if node_ops::uuids_of(init).contains(last.uuid) {
                let q = choose|q: int| 0 <= q < ids.len() && ids[q] == last.uuid;
                assert(nodes[q].uuid == last.uuid);
            }
            if !keep(n, last) && !seen.contains(last.uuid) {
                let j = choose|j: int| 0 <= j < n && (#[trigger] nodes[j]).uuid == last.uuid;
                assert(ids[j] == last.uuid);
            }
        }
        if keep(n, last) {
            before.push(n)
        } else {
            before
        }
    }
}

/// The facts that are left of a list are those whose identifiers were not seen, the first of those with
/// the same identifier, as they are and in order.
pub proof fn law_seen_facts_go(edges: Seq<EntityEdgeView>, seen: Set<Seq<char>>) -> (at: Seq<int>)
    ensures
        selection::selects(
            edges,
            bulk::unseen_edges(edges, seen),
            at,
            |i: int, e: EntityEdgeView|
                !seen.contains(e.uuid) && forall|j: int|
                    0 <= j < i ==> (#[trigger] edges[j]).uuid != e.uuid,
            |e: EntityEdgeView| e,
        ),
    decreases edges.len(),
{
    let keep = |i: int, e: EntityEdgeView|
        !seen.contains(e.uuid) && forall|j: int|
            0 <= j < i ==> (#[trigger] edges[j]).uuid != e.uuid;
    let make = |e: EntityEdgeView| e;
    if edges.len() == 0 {
        Seq::empty()
    } else {
        let init = edges.drop_last();
        let last = edges.last();
        let n = edges.len() - 1;
        let had = |i: int, e: EntityEdgeView|
            !seen.contains(e.uuid) && forall|j: int|
                0 <= j < i ==> (#[trigger] init[j]).uuid != e.uuid;
        let before = law_seen_facts_go(init, seen);
        assert forall|i: int| 0 <= i < n implies had(i, #[trigger] edges[i]) == keep(i, edges[i]) by {
            assert forall|j: int| 0 <= j < i implies #[trigger] init[j] == edges[j] by {}
            if had(i, edges[i]) {
                assert forall|j: int| 0 <= j < i implies (#[trigger] edges[j]).uuid
                    != edges[i].uuid by {
                    assert(init[j] == edges[j]);
                }
            }
        }
        selection::lemma_selects_next(
            edges,
            bulk::unseen_edges(init, seen),
            before,
            had,
            keep,
            make,
        );
        let ids = init.map_values(|e: EntityEdgeView| e.uuid);
        assert((seen.contains(last.uuid) || edge_ops::edge_uuids(init).contains(last.uuid)) == !keep(
            n,
            last,
        )) by {
            if edge_ops::edge_uuids(init).contains(last.uuid) {
                let q = choose|q: int| 0 <= q < ids.len() && ids[q] == last.uuid;
                assert(edges[q].uuid == last.uuid);
            }
            if !keep(n, last) && !seen.contains(last.uuid) {
                let j = choose|j: int| 0 <= j < n && (#[trigger] edges[j]).uuid == last.uuid;
                assert(ids[j] == last.uuid);
            }
        }
        if keep(n, last) {
            before.push(n)
        } else {
            before
        }
    }
}

proof fn lemma_nodes_seen(lists: Seq<Seq<EntityNodeView>>, k: nat, uuid: Seq<char>)
    requires
        k <= lists.len(),
    ensures
        bulk_ingest::nodes_before(lists, k).contains(uuid) <==> exists|l: int, q: int|
            0 <= l < k && 0 <= q < lists[l].len() && (#[trigger] lists[l][q]).uuid == uuid,
    decreases k,
{
    if k > 0 {
        lemma_nodes_seen(lists, (k - 1) as nat, uuid);
        let ids = lists[k - 1].map_values(|n: EntityNodeView| n.uuid);
        if node_ops::uuids_of(lists[k - 1]).contains(uuid) {
            let q = choose|q: int| 0 <= q < ids.len() && ids[q] == uuid;
            assert(lists[k - 1][q].uuid == uuid);
        }
        if exists|l: int, q: int|
            0 <= l < k && 0 <= q < lists[l].len() && (#[trigger] lists[l][q]).uuid == uuid {
            let (l, q) = choose|l: int, q: int|
                0 <= l < k && 0 <= q < lists[l].len() && (#[trigger] lists[l][q]).uuid == uuid;
            if l == k - 1 {
                assert(ids[q] == uuid);
            }
        }
    }
}

/// An entity of an episode is resolved with that episode exactly where no earlier episode has it, and
/// once where the episode has it more than once.
pub proof fn law_entity_is_resolved_with_its_first_episode(
    lists: Seq<Seq<EntityNodeView>>,
    i: int,
) -> (at: Seq<int>)
    requires
        0 <= i < lists.len(),
    ensures
        bulk_ingest::first_nodes(lists).len() == lists.len(),
        selection::selects(
            lists[i],
            bulk_ingest::first_nodes(lists)[i],
            at,
            |p: int, n: EntityNodeView|
                !(exists|l: int, q: int|
                    0 <= l < i && 0 <= q < lists[l].len() && (#[trigger] lists[l][q]).uuid == n.uuid)
                    && forall|j: int| 0 <= j < p ==> (#[trigger] lists[i][j]).uuid != n.uuid,
            |n: EntityNodeView| n,
        ),
{
    let seen = bulk_ingest::nodes_before(lists, i as nat);
    let nodes = lists[i];
    let at = law_seen_entities_go(nodes, seen);
    assert forall|n: EntityNodeView| #[trigger] seen.contains(n.uuid) <==> exists|l: int, q: int|
        0 <= l < i && 0 <= q < lists[l].len() && (#[trigger] lists[l][q]).uuid == n.uuid by {
        lemma_nodes_seen(lists, i as nat, n.uuid);
    }
    let out = bulk_ingest::first_nodes(lists)[i];
    let keep = |p: int, n: EntityNodeView|
        !(exists|l: int, q: int|
            0 <= l < i && 0 <= q < lists[l].len() && (#[trigger] lists[l][q]).uuid == n.uuid)
            && forall|j: int| 0 <= j < p ==> (#[trigger] lists[i][j]).uuid != n.uuid;
    assert forall|p: int| 0 <= p < nodes.len() && keep(p, #[trigger] nodes[p]) implies at.contains(
        p,
    ) by {
        assert(!seen.contains(nodes[p].uuid));
    }
    assert forall|k: int|
        #![trigger at[k]]
        #![trigger out[k]]
        0 <= k < at.len() implies 0 <= at[k] < nodes.len() && keep(at[k], nodes[at[k]]) && out[k]
        == nodes[at[k]] by {
        assert(!seen.contains(nodes[at[k]].uuid));
    }
    at
}

proof fn lemma_edges_seen(lists: Seq<Seq<EntityEdgeView>>, k: nat, uuid: Seq<char>)
    requires
        k <= lists.len(),
    ensures
        bulk_ingest::edges_before(lists, k).contains(uuid) <==> exists|l: int, q: int|
            0 <= l < k && 0 <= q < lists[l].len() && (#[trigger] lists[l][q]).uuid == uuid,
    decreases k,
{
    if k > 0 {
        lemma_edges_seen(lists, (k - 1) as nat, uuid);
        let ids = lists[k - 1].map_values(|e: EntityEdgeView| e.uuid);
        if edge_ops::edge_uuids(lists[k - 1]).contains(uuid) {
            let q = choose|q: int| 0 <= q < ids.len() && ids[q] == uuid;
            assert(lists[k - 1][q].uuid == uuid);
        }
        if exists|l: int, q: int|
            0 <= l < k && 0 <= q < lists[l].len() && (#[trigger] lists[l][q]).uuid == uuid {
            let (l, q) = choose|l: int, q: int|
                0 <= l < k && 0 <= q < lists[l].len() && (#[trigger] lists[l][q]).uuid == uuid;
            if l == k - 1 {
                assert(ids[q] == uuid);
            }
        }
    }
}

/// A fact of an episode is resolved with that episode exactly where no earlier episode has it, and once
/// where the episode has it more than once.
pub proof fn law_fact_is_resolved_with_its_first_episode(
    lists: Seq<Seq<EntityEdgeView>>,
    i: int,
) -> (at: Seq<int>)
    requires
        0 <= i < lists.len(),
    ensures
        bulk_ingest::first_edges(lists).len() == lists.len(),
        selection::selects(
            lists[i],
            bulk_ingest::first_edges(lists)[i],
            at,
            |p: int, e: EntityEdgeView|
                !(exists|l: int, q: int|
                    0 <= l < i && 0 <= q < lists[l].len() && (#[trigger] lists[l][q]).uuid == e.uuid)
                    && forall|j: int| 0 <= j < p ==> (#[trigger] lists[i][j]).uuid != e.uuid,
            |e: EntityEdgeView| e,
        ),
{
    let seen = bulk_ingest::edges_before(lists, i as nat);
    let edges = lists[i];
    let at = law_seen_facts_go(edges, seen);
    assert forall|e: EntityEdgeView| #[trigger] seen.contains(e.uuid) <==> exists|l: int, q: int|
        0 <= l < i && 0 <= q < lists[l].len() && (#[trigger] lists[l][q]).uuid == e.uuid by {
        lemma_edges_seen(lists, i as nat, e.uuid);
    }
    let out = bulk_ingest::first_edges(lists)[i];
    let keep = |p: int, e: EntityEdgeView|
        !(exists|l: int, q: int|
            0 <= l < i && 0 <= q < lists[l].len() && (#[trigger] lists[l][q]).uuid == e.uuid)
            && forall|j: int| 0 <= j < p ==> (#[trigger] lists[i][j]).uuid != e.uuid;
    assert forall|p: int| 0 <= p < edges.len() && keep(p, #[trigger] edges[p]) implies at.contains(
        p,
    ) by {
        assert(!seen.contains(edges[p].uuid));
    }
    assert forall|k: int|
        #![trigger at[k]]
        #![trigger out[k]]
        0 <= k < at.len() implies 0 <= at[k] < edges.len() && keep(at[k], edges[at[k]]) && out[k]
        == edges[at[k]] by {
        assert(!seen.contains(edges[at[k]].uuid));
    }
    at
}

/// Holds where the entity at a position is the first with an identifier.
pub open spec fn is_first_with(pool: Seq<EntityNodeView>, uuid: Seq<char>, i: int) -> bool {
    &&& 0 <= i < pool.len()
    &&& pool[i].uuid == uuid
    &&& forall|j: int| 0 <= j < i ==> (#[trigger] pool[j]).uuid != uuid
}

/// The position of an identifier is that of the first entity that has it; there is none where none has
/// it.
pub proof fn law_position_is_the_first(pool: Seq<EntityNodeView>, uuid: Seq<char>)
    ensures
        bulk_dedup::position_of(pool, uuid) is Some ==> is_first_with(
            pool,
            uuid,
            bulk_dedup::position_of(pool, uuid)->0,
        ),
        bulk_dedup::position_of(pool, uuid) is None ==> forall|j: int|
            0 <= j < pool.len() ==> (#[trigger] pool[j]).uuid != uuid,
    decreases pool.len(),
{
    if pool.len() > 0 {
        let init = pool.drop_last();
        law_position_is_the_first(init, uuid);
        assert(pool[pool.len() - 1] == pool.last());
        match bulk_dedup::position_of(init, uuid) {
            Some(i) => {
                assert(init[i] == pool[i]);
                assert forall|j: int| 0 <= j < i implies (#[trigger] pool[j]).uuid != uuid by {
                    assert(init[j] == pool[j]);
                }
            },
            None => {
                assert forall|j: int| 0 <= j < init.len() implies (#[trigger] pool[j]).uuid
                    != uuid by {
                    assert(init[j] == pool[j]);
                }
            },
        }
    }
}

/// The entity that goes by a name within a batch is the first whose name has the normal form; there is
/// none where no name has it.
pub proof fn law_batch_finds_the_first_namesake(pool: Seq<EntityNodeView>, normal: Seq<char>) -> (i: int)
    ensures
        bulk_dedup::first_named(pool, normal) is Some ==> {
            &&& 0 <= i < pool.len()
            &&& bulk_dedup::first_named(pool, normal) == Some(pool[i])
            &&& helpers::normal_form(pool[i].name) == normal
            &&& forall|j: int|
                0 <= j < i ==> helpers::normal_form((#[trigger] pool[j]).name) != normal
        },
        bulk_dedup::first_named(pool, normal) is None ==> forall|j: int|
            0 <= j < pool.len() ==> helpers::normal_form((#[trigger] pool[j]).name) != normal,
    decreases pool.len(),
{
    if pool.len() == 0 {
        0
    } else {
        let init = pool.drop_last();
        let i = law_batch_finds_the_first_namesake(init, normal);
        assert(pool[pool.len() - 1] == pool.last());
        assert forall|j: int| 0 <= j < init.len() implies #[trigger] pool[j] == init[j] by {}
        if bulk_dedup::first_named(init, normal) is Some {
            assert(init[i] == pool[i]);
            i
        } else {
            pool.len() - 1
        }
    }
}

/// An entity whose name has the normal form of one that a batch has already is that one: the batch does
/// not grow, and a pair leads from the identifier of the new one to that of the first namesake, unless
/// they are the same. An entity that is like none joins the batch as it is.
pub proof fn law_batch_merges_namesakes(
    nodes: Seq<EntityNodeView>,
    node: EntityNodeView,
    i: int,
)
    ensures
        ({
            let before = bulk_dedup::batch(nodes);
            let after = bulk_dedup::batch(nodes.push(node));
            let normal = helpers::normal_form(node.name);
            &&& 0 <= i < before.pool.len() && helpers::normal_form(before.pool[i].name) == normal && (
            forall|j: int|
                0 <= j < i ==> helpers::normal_form((#[trigger] before.pool[j]).name) != normal) ==> {
                &&& after.pool == before.pool
                &&& node.uuid != before.pool[i].uuid ==> after.pairs == before.pairs.push(
                    (node.uuid, before.pool[i].uuid),
                )
                &&& node.uuid == before.pool[i].uuid ==> after.pairs == before.pairs
            }
            &&& (forall|j: int|
                0 <= j < before.pool.len() ==> helpers::normal_form((#[trigger] before.pool[j]).name)
                    != normal && before.pool[j].uuid != node.uuid) && dedup_index::similar_entity(
                dedup_index::candidates_among(before.pool),
                node,
            ) is None ==> after.pool == before.pool.push(node) && after.pairs == before.pairs
        }),
{
    let before = bulk_dedup::batch(nodes);
    let normal = helpers::normal_form(node.name);
    assert(nodes.push(node).drop_last() =~= nodes);
    let k = law_batch_finds_the_first_namesake(before.pool, normal);
    law_position_is_the_first(before.pool, node.uuid);
    if 0 <= i < before.pool.len() && helpers::normal_form(before.pool[i].name) == normal && forall|
        j: int,
    |
        0 <= j < i ==> helpers::normal_form((#[trigger] before.pool[j]).name) != normal {
        if k < i {
            assert(helpers::normal_form(before.pool[k].name) != normal);
        }
        assert(k == i);
    }
}

/// A batch loses no entity: every one is there under its own identifier, or a pair leads from its
/// identifier to one that is there. Everything that is there is one of the entities.
pub proof fn law_batch_loses_no_entity(nodes: Seq<EntityNodeView>, i: int)
    requires
        0 <= i < nodes.len(),
    ensures
        ({
            let b = bulk_dedup::batch(nodes);
            &&& (exists|p: int| 0 <= p < b.pool.len() && (#[trigger] b.pool[p]).uuid == nodes[i].uuid)
                || exists|k: int, p: int|
                {
                    &&& 0 <= k < b.pairs.len()
                    &&& 0 <= p < b.pool.len()
                    &&& (#[trigger] b.pairs[k]) == (nodes[i].uuid, (#[trigger] b.pool[p]).uuid)
                }
            &&& forall|p: int| 0 <= p < b.pool.len() ==> nodes.contains(#[trigger] b.pool[p])
        }),
    decreases nodes.len(),
{
    let init = nodes.drop_last();
    let node = nodes.last();
    let before = bulk_dedup::batch(init);
    let b = bulk_dedup::batch(nodes);
    let normal = helpers::normal_form(node.name);
    assert(nodes[nodes.len() - 1] == node);
    if init.len() > 0 {
        law_batch_loses_no_entity(init, if i < init.len() { i } else { 0 });
    }
    assert forall|p: int| 0 <= p < before.pool.len() implies nodes.contains(
        #[trigger] before.pool[p],
    ) by {
        let q = choose|q: int| 0 <= q < init.len() && init[q] == before.pool[p];
        assert(nodes[q] == before.pool[p]);
    }
    let m = law_batch_finds_the_first_namesake(before.pool, normal);
    law_position_is_the_first(before.pool, node.uuid);
    dedup_index::law_duplicate_is_a_known_entity(before.pool, node);
    let similar = dedup_index::similar_entity(dedup_index::candidates_among(before.pool), node);
    let target: int = if bulk_dedup::first_named(before.pool, normal) is Some {
        m
    } else if similar is Some {
        choose|k: int|
            0 <= k < before.pool.len() && similar->0 == dedup_index::promoted(
                node,
                #[trigger] before.pool[k],
            )
    } else {
        0
    };
    if bulk_dedup::first_named(before.pool, normal) is None && similar is Some {
        law_position_is_the_first(before.pool, similar->0.uuid);
        assert(before.pool[target].uuid == similar->0.uuid);
    }
    // what was there under an identifier stays there
    assert(forall|p: int|
        0 <= p < before.pool.len() ==> p < b.pool.len() && (#[trigger] b.pool[p]).uuid
            == before.pool[p].uuid);
    assert(forall|k: int|
        0 <= k < before.pairs.len() ==> k < b.pairs.len() && #[trigger] b.pairs[k]
            == before.pairs[k]);
    if i < init.len() {
        assert(init[i] == nodes[i]);
        if exists|p: int|
            0 <= p < before.pool.len() && (#[trigger] before.pool[p]).uuid == nodes[i].uuid {
            let p = choose|p: int|
                0 <= p < before.pool.len() && (#[trigger] before.pool[p]).uuid == nodes[i].uuid;
            assert(b.pool[p].uuid == nodes[i].uuid);
        } else {
            let (k, p) = choose|k: int, p: int|
                {
                    &&& 0 <= k < before.pairs.len()
                    &&& 0 <= p < before.pool.len()
                    &&& (#[trigger] before.pairs[k]) == (
                        nodes[i].uuid,
                        (#[trigger] before.pool[p]).uuid,
                    )
                };
            assert(b.pairs[k] == (nodes[i].uuid, b.pool[p].uuid));
        }
    } else if bulk_dedup::first_named(before.pool, normal) is Some || similar is Some {
        if node.uuid != before.pool[target].uuid {
            let k = before.pairs.len() as int;
            assert(b.pairs[k] == (node.uuid, b.pool[target].uuid));
        } else {
            assert(b.pool[target].uuid == node.uuid);
        }
    } else {
        match bulk_dedup::position_of(before.pool, node.uuid) {
            Some(p) => {
                assert(b.pool[p].uuid == node.uuid);
            },
            None => {
                assert(b.pool[before.pool.len() as int].uuid == node.uuid);
            },
        }
    }
}

/// What stands for the entities of an episode: for each that an identifier map takes to an identifier
/// that none before it is taken to, the entity of the pool with that identifier, and the entity itself
/// where the pool has none; in order.
pub proof fn law_entities_are_projected(
    nodes: Seq<EntityNodeView>,
    m: Map<Seq<char>, Seq<char>>,
    pool: Seq<EntityNodeView>,
) -> (at: Seq<int>)
    ensures
        selection::selects(
            nodes,
            bulk_dedup::projected(nodes, m, pool),
            at,
            |i: int, n: EntityNodeView|
                forall|j: int|
                    0 <= j < i ==> bulk::canonical(m, (#[trigger] nodes[j]).uuid) != bulk::canonical(
                        m,
                        n.uuid,
                    ),
            |n: EntityNodeView|
                match bulk_dedup::position_of(pool, bulk::canonical(m, n.uuid)) {
                    Some(p) => pool[p],
                    None => n,
                },
        ),
    decreases nodes.len(),
{
    let keep = |i: int, n: EntityNodeView|
        forall|j: int|
            0 <= j < i ==> bulk::canonical(m, (#[trigger] nodes[j]).uuid) != bulk::canonical(
                m,
                n.uuid,
            );
    let make = |n: EntityNodeView|
        match bulk_dedup::position_of(pool, bulk::canonical(m, n.uuid)) {
            Some(p) => pool[p],
            None => n,
        };
    if nodes.len() == 0 {
        Seq::empty()
    } else {
        let init = nodes.drop_last();
        let last = nodes.last();
        let n = nodes.len() - 1;
        let had = |i: int, n: EntityNodeView|
            forall|j: int|
                0 <= j < i ==> bulk::canonical(m, (#[trigger] init[j]).uuid) != bulk::canonical(
                    m,
                    n.uuid,
                );
        let before = law_entities_are_projected(init, m, pool);
        assert forall|i: int| 0 <= i < n implies had(i, #[trigger] nodes[i]) == keep(i, nodes[i]) by {
            assert forall|j: int| 0 <= j < i implies #[trigger] init[j] == nodes[j] by {}
            if had(i, nodes[i]) {
                assert forall|j: int| 0 <= j < i implies bulk::canonical(
                    m,
                    (#[trigger] nodes[j]).uuid,
                ) != bulk::canonical(m, nodes[i].uuid) by {
                    assert(init[j] == nodes[j]);
                }
            }
        }
        selection::lemma_selects_next(
            nodes,
            bulk_dedup::projected(init, m, pool),
            before,
            had,
            keep,
            make,
        );
        let ids = init.map_values(|n: EntityNodeView| bulk::canonical(m, n.uuid));
        let uuid = bulk::canonical(m, last.uuid);
        assert(bulk_dedup::canonical_uuids(init, m).contains(uuid) == !keep(n, last)) by {
            if bulk_dedup::canonical_uuids(init, m).contains(uuid) {
                let q = choose|q: int| 0 <= q < ids.len() && ids[q] == uuid;
                assert(bulk::canonical(m, nodes[q].uuid) == uuid);
            }
            if !keep(n, last) {
                let j = choose|j: int|
                    0 <= j < n && bulk::canonical(m, (#[trigger] nodes[j]).uuid) == uuid;
                assert(ids[j] == uuid);
            }
        }
        if keep(n, last) {
            before.push(n)
        } else {
            before
        }
    }
}

/// The map of a batch makes one of what the resolutions found to be the same: the two identifiers of an
/// entry of a resolution's map, of a duplicate, or of a pair of the batch end up at the same identifier.
pub proof fn law_batch_map_joins_what_is_the_same(
    outcomes: Seq<node_ops::NodeOutcomeView>,
    i: int,
)
    ensures
        ({
            let pairs = bulk_dedup::all_entries(outcomes) + bulk_dedup::all_duplicates(outcomes)
                + bulk_dedup::batch(bulk_dedup::all_nodes(outcomes)).pairs;
            let m = bulk_dedup::batch_map(outcomes);
            0 <= i < pairs.len() ==> {
                &&& m.dom().contains(pairs[i].0)
                &&& m.dom().contains(pairs[i].1)
                &&& bulk::canonical(m, pairs[i].0) == bulk::canonical(m, pairs[i].1)
            }
        }),
{
    let pairs = bulk_dedup::all_entries(outcomes) + bulk_dedup::all_duplicates(outcomes)
        + bulk_dedup::batch(bulk_dedup::all_nodes(outcomes)).pairs;
    if 0 <= i < pairs.len() {
        assert(uuid_map::mentioned(pairs, pairs[i].0));
        assert(uuid_map::mentioned(pairs, pairs[i].1));
        uuid_map::law_directed_map_joins_duplicates(pairs, pairs[i].0, pairs[i].1);
        uuid_map::law_pairs_connect(pairs, i);
    }
}

/// The entities and duplicates of resolutions are strung together: what one of them has, the whole has,
/// and nothing else.
pub proof fn law_outcomes_are_strung_together(
    outcomes: Seq<node_ops::NodeOutcomeView>,
    x: EntityNodeView,
    a: Alias,
)
    ensures
        bulk_dedup::all_nodes(outcomes).contains(x) <==> exists|i: int|
            0 <= i < outcomes.len() && (#[trigger] outcomes[i]).nodes.contains(x),
        bulk_dedup::all_duplicates(outcomes).contains(a) <==> exists|i: int, k: int|
            {
                &&& 0 <= i < outcomes.len()
                &&& 0 <= k < outcomes[i].duplicates.len()
                &&& (#[trigger] outcomes[i].duplicates[k]).0.uuid == a.0
                &&& outcomes[i].duplicates[k].1.uuid == a.1
            },
    decreases outcomes.len(),
{
    if outcomes.len() > 0 {
        let init = outcomes.drop_last();
        let last = outcomes.last();
        law_outcomes_are_strung_together(init, x, a);
        assert(outcomes[outcomes.len() - 1] == last);
        let before = bulk_dedup::all_nodes(init);
        let all = bulk_dedup::all_nodes(outcomes);
        if all.contains(x) {
            let k = choose|k: int| 0 <= k < all.len() && all[k] == x;
            if k < before.len() {
                assert(before[k] == x);
                let i = choose|i: int|
                    0 <= i < init.len() && (#[trigger] init[i]).nodes.contains(x);
                assert(outcomes[i] == init[i]);
            } else {
                assert(last.nodes[k - before.len()] == x);
            }
        }
        if exists|i: int| 0 <= i < outcomes.len() && (#[trigger] outcomes[i]).nodes.contains(x) {
            let i = choose|i: int|
                0 <= i < outcomes.len() && (#[trigger] outcomes[i]).nodes.contains(x);
            if i < init.len() {
                assert(init[i] == outcomes[i]);
                let k = choose|k: int| 0 <= k < before.len() && before[k] == x;
                assert(all[k] == x);
            } else {
                let k = choose|k: int| 0 <= k < last.nodes.len() && last.nodes[k] == x;
                assert(all[before.len() + k] == x);
            }
        }
        let had = bulk_dedup::all_duplicates(init);
        let own = last.duplicates.map_values(
            |d: (EntityNodeView, EntityNodeView)| (d.0.uuid, d.1.uuid),
        );
        let dups = bulk_dedup::all_duplicates(outcomes);
        if dups.contains(a) {
            let k = choose|k: int| 0 <= k < dups.len() && dups[k] == a;
            if k < had.len() {
                assert(had[k] == a);
                let (i, j) = choose|i: int, j: int|
                    {
                        &&& 0 <= i < init.len()
                        &&& 0 <= j < init[i].duplicates.len()
                        &&& (#[trigger] init[i].duplicates[j]).0.uuid == a.0
                        &&& init[i].duplicates[j].1.uuid == a.1
                    };
                assert(outcomes[i].duplicates[j].0.uuid == a.0);
            } else {
                assert(own[k - had.len()] == a);
                assert(outcomes[outcomes.len() - 1].duplicates[k - had.len()].0.uuid == a.0);
            }
        }
        if exists|i: int, k: int|
            {
                &&& 0 <= i < outcomes.len()
                &&& 0 <= k < outcomes[i].duplicates.len()
                &&& (#[trigger] outcomes[i].duplicates[k]).0.uuid == a.0
                &&& outcomes[i].duplicates[k].1.uuid == a.1
            } {
            let (i, k) = choose|i: int, k: int|
                {
                    &&& 0 <= i < outcomes.len()
                    &&& 0 <= k < outcomes[i].duplicates.len()
                    &&& (#[trigger] outcomes[i].duplicates[k]).0.uuid == a.0
                    &&& outcomes[i].duplicates[k].1.uuid == a.1
                };
            if i < init.len() {
                assert(init[i].duplicates[k].0.uuid == a.0);
                let q = choose|q: int| 0 <= q < had.len() && had[q] == a;
                assert(dups[q] == a);
            } else {
                assert(own[k] == a);
                assert(dups[had.len() + k] == a);
            }
        }
    }
}

/// Two facts have a word in common exactly where a word of the one, in lowercase, is a word of the
/// other. Facts of a batch may be the same where they lead between the same entities under different
/// identifiers and have a word in common or are similar.
pub proof fn law_batch_compares_facts_between_the_same_entities(
    e: EntityEdgeView,
    other: EntityEdgeView,
    similar: bool,
)
    ensures
        bulk_dedup::share_a_word(e.fact, other.fact) <==> exists|i: int, j: int|
            {
                &&& 0 <= i < text::words(text::lowercase(e.fact)).len()
                &&& 0 <= j < text::words(text::lowercase(other.fact)).len()
                &&& #[trigger] text::words(text::lowercase(e.fact))[i]
                    == #[trigger] text::words(text::lowercase(other.fact))[j]
            },
        bulk_dedup::is_batch_candidate(e, other, similar) <==> e.uuid != other.uuid
            && e.source_node_uuid == other.source_node_uuid && e.target_node_uuid
            == other.target_node_uuid && (similar || bulk_dedup::share_a_word(e.fact, other.fact)),
{
    let a = text::words(text::lowercase(e.fact));
    let b = text::words(text::lowercase(other.fact));
    if bulk_dedup::share_a_word(e.fact, other.fact) {
        let w = choose|w: Seq<char>|
            #[trigger] bulk_dedup::fact_words(e.fact).contains(w) && bulk_dedup::fact_words(
                other.fact,
            ).contains(w);
        let i = choose|i: int| 0 <= i < a.len() && a[i] == w;
        let j = choose|j: int| 0 <= j < b.len() && b[j] == w;
        assert(a[i] == b[j]);
    }
    if exists|i: int, j: int|
        {
            &&& 0 <= i < a.len()
            &&& 0 <= j < b.len()
            &&& #[trigger] a[i] == #[trigger] b[j]
        } {
        let (i, j) = choose|i: int, j: int|
            {
                &&& 0 <= i < a.len()
                &&& 0 <= j < b.len()
                &&& #[trigger] a[i] == #[trigger] b[j]
            };
        assert(bulk_dedup::fact_words(e.fact).contains(a[i]));
        assert(bulk_dedup::fact_words(other.fact).contains(b[j]));
    }
}

/// The facts of a batch that one of it is compared with are all those that may be the same, by the
/// similarity at their own positions, as they are and in order.
pub proof fn law_batch_candidates_are_all_that_may_be_the_same(
    e: EntityEdgeView,
    all: Seq<EntityEdgeView>,
    similar: Seq<bool>,
) -> (at: Seq<int>)
    ensures
        selection::selects(
            all,
            bulk_dedup::batch_candidates(e, all, similar),
            at,
            |i: int, other: EntityEdgeView|
                e.uuid != other.uuid && e.source_node_uuid == other.source_node_uuid
                    && e.target_node_uuid == other.target_node_uuid && (similar[i]
                    || bulk_dedup::share_a_word(e.fact, other.fact)),
            |other: EntityEdgeView| other,
        ),
    decreases all.len(),
{
    let keep = |i: int, other: EntityEdgeView|
        e.uuid != other.uuid && e.source_node_uuid == other.source_node_uuid && e.target_node_uuid
            == other.target_node_uuid && (similar[i] || bulk_dedup::share_a_word(
            e.fact,
            other.fact,
        ));
    let make = |other: EntityEdgeView| other;
    if all.len() == 0 {
        Seq::empty()
    } else {
        let init = all.drop_last();
        let before = law_batch_candidates_are_all_that_may_be_the_same(e, init, similar);
        selection::lemma_selects_next(
            all,
            bulk_dedup::batch_candidates(e, init, similar),
            before,
            keep,
            keep,
            make,
        );
        if keep(all.len() - 1, all.last()) {
            before.push(all.len() - 1)
        } else {
            before
        }
    }
}

/// The duplicates among the facts of a batch: for each fact that resolved to another one, in order, a
/// pair from its identifier to that of what the fact at its own position resolved to.
pub proof fn law_facts_are_paired_with_what_they_resolved_to(
    edges: Seq<EntityEdgeView>,
    resolved: Seq<EntityEdgeView>,
) -> (at: Seq<int>)
    ensures
        selection::selects(
            Seq::new(edges.len(), |i: int| i),
            bulk_dedup::fact_aliases(edges, resolved),
            at,
            |i: int, x: int| x < resolved.len() && edges[x].uuid != resolved[x].uuid,
            |x: int| (edges[x].uuid, resolved[x].uuid),
        ),
    decreases edges.len(),
{
    let keep = |i: int, x: int| x < resolved.len() && edges[x].uuid != resolved[x].uuid;
    let make = |x: int| (edges[x].uuid, resolved[x].uuid);
    let from = Seq::new(edges.len(), |i: int| i);
    if edges.len() == 0 {
        Seq::empty()
    } else {
        let init = edges.drop_last();
        let n = edges.len() - 1;
        let before = law_facts_are_paired_with_what_they_resolved_to(init, resolved);
        let fewer = Seq::new(init.len(), |i: int| i);
        assert(from.drop_last() =~= fewer);
        let out = bulk_dedup::fact_aliases(init, resolved);
        assert(selection::selects(fewer, out, before, keep, make)) by {
            assert forall|k: int|
                #![trigger before[k]]
                #![trigger out[k]]
                0 <= k < before.len() implies 0 <= before[k] < fewer.len() && keep(
                before[k],
                fewer[before[k]],
            ) && out[k] == make(fewer[before[k]]) by {
                assert(fewer[before[k]] == before[k]);
                assert(init[before[k]] == edges[before[k]]);
            }
            assert forall|i: int| 0 <= i < fewer.len() && keep(i, #[trigger] fewer[i]) implies before.contains(
                i,
            ) by {
                assert(fewer[i] == i);
                assert(init[i] == edges[i]);
            }
        }
        selection::lemma_selects_next(from, out, before, keep, keep, make);
        assert(from.last() == n);
        if keep(n, n) {
            before.push(n)
        } else {
            before
        }
    }
}

/// Holds where the fact at a position is the last with an identifier.
pub open spec fn is_last_fact(edges: Seq<EntityEdgeView>, uuid: Seq<char>, i: int) -> bool {
    &&& 0 <= i < edges.len()
    &&& edges[i].uuid == uuid
    &&& forall|j: int| i < j < edges.len() ==> (#[trigger] edges[j]).uuid != uuid
}

proof fn lemma_last_fact(edges: Seq<EntityEdgeView>, uuid: Seq<char>, i: int)
    ensures
        is_last_fact(edges, uuid, i) ==> bulk_dedup::last_fact_with(edges, uuid) == Some(edges[i]),
        (forall|j: int| 0 <= j < edges.len() ==> (#[trigger] edges[j]).uuid != uuid)
            ==> bulk_dedup::last_fact_with(edges, uuid) is None,
    decreases edges.len(),
{
    if edges.len() > 0 {
        let init = edges.drop_last();
        lemma_last_fact(init, uuid, i);
        assert(edges[edges.len() - 1] == edges.last());
        if is_last_fact(edges, uuid, i) && i < init.len() {
            assert(edges[edges.len() - 1].uuid != uuid);
            assert forall|j: int| i < j < init.len() implies (#[trigger] init[j]).uuid != uuid by {
                assert(init[j] == edges[j]);
            }
        }
        if forall|j: int| 0 <= j < edges.len() ==> (#[trigger] edges[j]).uuid != uuid {
            assert forall|j: int| 0 <= j < init.len() implies (#[trigger] init[j]).uuid != uuid by {
                assert(init[j] == edges[j]);
            }
        }
    }
}

/// What stands for a fact of a batch is the last fact of the batch with the identifier that a map takes
/// it to, and the fact itself where no fact of the batch has that identifier.
pub proof fn law_facts_are_projected(
    e: EntityEdgeView,
    all: Seq<EntityEdgeView>,
    m: Map<Seq<char>, Seq<char>>,
    i: int,
)
    ensures
        m.dom().contains(e.uuid) && is_last_fact(all, m[e.uuid], i) ==> bulk_dedup::projected_fact(
            e,
            all,
            m,
        ) == all[i],
        !m.dom().contains(e.uuid) && is_last_fact(all, e.uuid, i) ==> bulk_dedup::projected_fact(
            e,
            all,
            m,
        ) == all[i],
        m.dom().contains(e.uuid) && (forall|j: int|
            0 <= j < all.len() ==> (#[trigger] all[j]).uuid != m[e.uuid])
            ==> bulk_dedup::projected_fact(e, all, m) == e,
{
    lemma_last_fact(all, bulk::canonical(m, e.uuid), i);
}

/// Facts of a batch that resolved to one another end up as one: where one of them stands for another by
/// the pairs of what the facts resolved to, both are taken to the same identifier, the smallest of all
/// that are the same.
pub proof fn law_same_facts_become_one(
    edges: Seq<EntityEdgeView>,
    resolved: Seq<EntityEdgeView>,
    x: int,
    y: Seq<char>,
)
    requires
        0 <= x < edges.len(),
        x < resolved.len(),
        edges[x].uuid != resolved[x].uuid,
        uuid_map::mentioned(bulk_dedup::fact_aliases(edges, resolved), y),
        uuid_map::connected(bulk_dedup::fact_aliases(edges, resolved), edges[x].uuid, y),
    ensures
        ({
            let m = uuid_map::smallest_roots(bulk_dedup::fact_aliases(edges, resolved));
            &&& bulk::canonical(m, edges[x].uuid) == bulk::canonical(m, resolved[x].uuid)
            &&& !text::str_lt(y, bulk::canonical(m, edges[x].uuid))
        }),
{
    let pairs = bulk_dedup::fact_aliases(edges, resolved);
    let from = Seq::new(edges.len(), |i: int| i);
    let at = law_facts_are_paired_with_what_they_resolved_to(edges, resolved);
    assert(from[x] == x);
    let k = choose|k: int| 0 <= k < at.len() && at[k] == x;
    assert(pairs[k] == (edges[x].uuid, resolved[x].uuid));
    assert(uuid_map::mentioned(pairs, edges[x].uuid));
    assert(uuid_map::mentioned(pairs, resolved[x].uuid));
    uuid_map::law_pairs_connect(pairs, k);
    uuid_map::law_compressed_map_joins_duplicates(pairs, edges[x].uuid, resolved[x].uuid);
    uuid_map::law_compressed_map_picks_smallest(pairs, edges[x].uuid, y);
}

/// The list that goes with an episode is the one at its position, and where the episode is there more
/// than once, the one at its last position that has a list.
pub proof fn law_lists_go_with_their_episodes<V>(
    uuids: Seq<Seq<char>>,
    lists: Seq<Seq<V>>,
    i: int,
    p: int,
)
    requires
        0 <= i < uuids.len(),
        0 <= p < uuids.len(),
        p < lists.len(),
        uuids[p] == uuids[i],
        forall|j: int|
            p < j < uuids.len() && j < lists.len() ==> #[trigger] uuids[j] != uuids[i],
    ensures
        bulk_ingest::lists_of(uuids, lists).len() == uuids.len(),
        bulk_ingest::lists_of(uuids, lists)[i] == lists[p],
{
    lemma_latest_at(uuids, lists.len(), uuids[i], p);
}

proof fn lemma_latest_at(uuids: Seq<Seq<char>>, n: nat, uuid: Seq<char>, p: int)
    requires
        0 <= p < uuids.len(),
        p < n,
        uuids[p] == uuid,
        forall|j: int| p < j < uuids.len() && j < n ==> #[trigger] uuids[j] != uuid,
    ensures
        bulk_ingest::latest_at(uuids, n, uuid) == Some(p),
    decreases uuids.len(),
{
    let init = uuids.drop_last();
    assert(uuids[uuids.len() - 1] == uuids.last());
    if p < uuids.len() - 1 {
        assert(init[p] == uuids[p]);
        assert forall|j: int| p < j < init.len() && j < n implies #[trigger] init[j] != uuid by {
            assert(init[j] == uuids[j]);
        }
        lemma_latest_at(init, n, uuid, p);
    }
}

/// An episode mentions exactly the entities of its list, and an episode that is there more than once
/// mentions those of its first place.
pub proof fn law_episodes_mention_their_entities(
    uuids: Seq<Seq<char>>,
    lists: Seq<Seq<EntityNodeView>>,
    k: nat,
    a: Alias,
)
    requires
        k <= uuids.len(),
        k <= lists.len(),
    ensures
        bulk_ingest::mention_pairs(uuids, lists, k).contains(a) <==> exists|i: int, j: int|
            {
                &&& 0 <= i < k
                &&& 0 <= j < lists[i].len()
                &&& uuids[i] == a.0
                &&& (#[trigger] lists[i][j]).uuid == a.1
                &&& forall|q: int| 0 <= q < i ==> #[trigger] uuids[q] != uuids[i]
            },
    decreases k,
{
    if k > 0 {
        let n = k - 1;
        let before = bulk_ingest::mention_pairs(uuids, lists, n as nat);
        let all = bulk_ingest::mention_pairs(uuids, lists, k);
        let own = lists[n].map_values(|x: EntityNodeView| (uuids[n], x.uuid));
        law_episodes_mention_their_entities(uuids, lists, n as nat, a);
        let first = forall|q: int| 0 <= q < n ==> #[trigger] uuids[q] != uuids[n];
        assert(uuids.take(n).contains(uuids[n]) == !first) by {
            if uuids.take(n).contains(uuids[n]) {
                let q = choose|q: int| 0 <= q < n && uuids.take(n)[q] == uuids[n];
                assert(uuids[q] == uuids[n]);
            }
            if !first {
                let q = choose|q: int| 0 <= q < n && #[trigger] uuids[q] == uuids[n];
                assert(uuids.take(n)[q] == uuids[n]);
            }
        }
        if all.contains(a) {
            let m = choose|m: int| 0 <= m < all.len() && all[m] == a;
            if m < before.len() {
                assert(before[m] == a);
                let (i, j) = choose|i: int, j: int|
                    {
                        &&& 0 <= i < n
                        &&& 0 <= j < lists[i].len()
                        &&& uuids[i] == a.0
                        &&& (#[trigger] lists[i][j]).uuid == a.1
                        &&& forall|q: int| 0 <= q < i ==> #[trigger] uuids[q] != uuids[i]
                    };
                assert(lists[i][j].uuid == a.1);
            } else {
                assert(own[m - before.len()] == a);
                assert(lists[n][m - before.len()].uuid == a.1);
            }
        }
        if exists|i: int, j: int|
            {
                &&& 0 <= i < k
                &&& 0 <= j < lists[i].len()
                &&& uuids[i] == a.0
                &&& (#[trigger] lists[i][j]).uuid == a.1
                &&& forall|q: int| 0 <= q < i ==> #[trigger] uuids[q] != uuids[i]
            } {
            let (i, j) = choose|i: int, j: int|
                {
                    &&& 0 <= i < k
                    &&& 0 <= j < lists[i].len()
                    &&& uuids[i] == a.0
                    &&& (#[trigger] lists[i][j]).uuid == a.1
                    &&& forall|q: int| 0 <= q < i ==> #[trigger] uuids[q] != uuids[i]
                };
            if i < n {
                assert(before.contains(a)) by {
                    assert(lists[i][j].uuid == a.1);
                }
                let m = choose|m: int| 0 <= m < before.len() && before[m] == a;
                assert(all[m] == a);
            } else {
                assert(own[j] == a);
                assert(all[before.len() + j] == a);
            }
        }
    }
}

/// Every fact of every list is pointed at what its entities stand for, in its place.
pub proof fn law_lists_are_pointed(
    lists: Seq<Seq<EntityEdgeView>>,
    m: Map<Seq<char>, Seq<char>>,
    i: int,
    j: int,
)
    requires
        0 <= i < lists.len(),
        0 <= j < lists[i].len(),
    ensures
        ({
            let out = bulk_ingest::pointed_lists(lists, m);
            let e = lists[i][j];
            &&& out.len() == lists.len()
            &&& out[i].len() == lists[i].len()
            &&& out[i][j] == EntityEdgeView {
                source_node_uuid: if m.dom().contains(e.source_node_uuid) {
                    m[e.source_node_uuid]
                } else {
                    e.source_node_uuid
                },
                target_node_uuid: if m.dom().contains(e.target_node_uuid) {
                    m[e.target_node_uuid]
                } else {
                    e.target_node_uuid
                },
                ..e
            }
        }),
{
}

/// Of maps that are united the last one that has a key decides on it, and a key that none has is not
/// there.
pub proof fn law_later_maps_win(
    maps: Seq<Map<Seq<char>, Seq<char>>>,
    n: nat,
    k: int,
    key: Seq<char>,
)
    requires
        n <= maps.len(),
    ensures
        0 <= k < n && maps[k].dom().contains(key) && (forall|j: int|
            k < j < n ==> !(#[trigger] maps[j]).dom().contains(key)) ==> bulk_ingest::united(
            maps,
            n,
        ).dom().contains(key) && bulk_ingest::united(maps, n)[key] == maps[k][key],
        (forall|j: int| 0 <= j < n ==> !(#[trigger] maps[j]).dom().contains(key))
            ==> !bulk_ingest::united(maps, n).dom().contains(key),
    decreases n,
{
    if n > 0 {
        law_later_maps_win(maps, (n - 1) as nat, k, key);
        if 0 <= k < n - 1 && forall|j: int| k < j < n ==> !(#[trigger] maps[j]).dom().contains(key) {
            assert(!maps[n - 1].dom().contains(key));
        }
    }
}

/// What the facts of episodes resolved to, and what they put an end to, comes together: what one of
/// the outcomes has is there, and nothing else.
pub proof fn law_bulk_outcomes_come_together(
    outcomes: Seq<EdgeResolutionOutcome>,
    n: nat,
    x: EntityEdge,
)
    requires
        n <= outcomes.len(),
    ensures
        bulk_ingest::resolved_in(outcomes, n).contains(x) <==> exists|i: int|
            0 <= i < n && (#[trigger] outcomes[i]).resolved_edges@.contains(x),
        bulk_ingest::invalidated_in(outcomes, n).contains(x) <==> exists|i: int|
            0 <= i < n && (#[trigger] outcomes[i]).invalidated_edges@.contains(x),
    decreases n,
{
    if n > 0 {
        law_bulk_outcomes_come_together(outcomes, (n - 1) as nat, x);
        let last = outcomes[n - 1];
        lemma_contains_sum(
            bulk_ingest::resolved_in(outcomes, (n - 1) as nat),
            last.resolved_edges@,
            x,
        );
        lemma_contains_sum(
            bulk_ingest::invalidated_in(outcomes, (n - 1) as nat),
            last.invalidated_edges@,
            x,
        );
    }
}

proof fn lemma_contains_sum<V>(a: Seq<V>, b: Seq<V>, x: V)
    ensures
        (a + b).contains(x) <==> a.contains(x) || b.contains(x),
{
    let s = a + b;
    if s.contains(x) {
        let k = choose|k: int| 0 <= k < s.len() && s[k] == x;
        if k < a.len() {
            assert(a[k] == x);
        } else {
            assert(b[k - a.len()] == x);
        }
    }
    if a.contains(x) {
        let k = choose|k: int| 0 <= k < a.len() && a[k] == x;
        assert(s[k] == x);
    }
    if b.contains(x) {
        let k = choose|k: int| 0 <= k < b.len() && b[k] == x;
        assert(s[a.len() + k] == x);
    }
}

/// An entity that is neither named nor similar to one before it in the batch enters the batch as it
/// is, in the place of one with its identifier; the others stay, and it is paired with none.
pub proof fn law_new_entity_enters_the_batch(nodes: Seq<EntityNodeView>, p: int)
    requires
        nodes.len() > 0,
        ({
            let before = bulk_dedup::batch(nodes.drop_last());
            &&& forall|k: int|
                0 <= k < before.pool.len() ==> helpers::normal_form(
                    (#[trigger] before.pool[k]).name,
                ) != helpers::normal_form(nodes.last().name)
            &&& dedup_index::similar_entity(
                dedup_index::candidates_among(before.pool),
                nodes.last(),
            ) is None
        }),
    ensures
        ({
            let before = bulk_dedup::batch(nodes.drop_last());
            let after = bulk_dedup::batch(nodes);
            &&& after.pool.contains(nodes.last())
            &&& after.pairs == before.pairs
            &&& 0 <= p < before.pool.len() && before.pool[p].uuid != nodes.last().uuid
                ==> after.pool.contains(before.pool[p])
        }),
{
    let before = bulk_dedup::batch(nodes.drop_last());
    let after = bulk_dedup::batch(nodes);
    let node = nodes.last();
    let m = law_batch_finds_the_first_namesake(before.pool, helpers::normal_form(node.name));
    law_position_is_the_first(before.pool, node.uuid);
    match bulk_dedup::position_of(before.pool, node.uuid) {
        Some(i) => {
            assert(after.pool[i] == node);
            if 0 <= p < before.pool.len() && before.pool[p].uuid != node.uuid {
                assert(after.pool[p] == before.pool[p]);
            }
        },
        None => {
            assert(after.pool[before.pool.len() as int] == node);
            if 0 <= p < before.pool.len() {
                assert(after.pool[p] == before.pool[p]);
            }
        },
    }
}

} // verus!
