//! Entities and facts that are the same across the episodes of a batch.
use crate::collections::{self, StringMap, StringSet};
use crate::helpers::{self, normalize_string_exact};
use crate::pipeline::bulk::{self, canonical_uuid};
use crate::pipeline::dedup_index::{self, build_candidate_indexes, find_similar, holds};
use crate::pipeline::node_ops::{self, NodeOutcomeView, NodeResolutionOutcome};
use crate::pipeline::uuid_map::{self, build_directed_uuid_map, compress_uuid_map, Alias};
use crate::text::{self, lowercased, owned, split_words, str_eq};
use crate::types::{self, clone_edges, clone_nodes};
use crate::types::edge::{EntityEdge, EntityEdgeView};
use crate::types::node::{EntityNode, EntityNodeView};
use vstd::prelude::*;

verus! {

/// The entities that stand for those of a batch, and the pairs of a duplicate and what stands
/// for it.
pub struct BatchView {
    pub pool: Seq<EntityNodeView>,
    pub pairs: Seq<Alias>,
}

/// The first of the entities whose name has a normal form.
pub open spec fn first_named(pool: Seq<EntityNodeView>, normal: Seq<char>) -> Option<EntityNodeView>
    decreases pool.len(),
{
    if pool.len() == 0 {
        None
    } else {
        match first_named(pool.drop_last(), normal) {
            Some(n) => Some(n),
            None => if helpers::normal_form(pool.last().name) == normal {
                Some(pool.last())
            } else {
                None
            },
        }
    }
}

/// The first of the entities with an identifier.
pub open spec fn position_of(pool: Seq<EntityNodeView>, uuid: Seq<char>) -> Option<int>
    decreases pool.len(),
{
    if pool.len() == 0 {
        None
    } else {
        match position_of(pool.drop_last(), uuid) {
            Some(i) => Some(i),
            None => if pool.last().uuid == uuid {
                Some(pool.len() - 1)
            } else {
                None
            },
        }
    }
}

/// The entities with one more, in the place of that with the same identifier if there is one.
pub open spec fn upserted(pool: Seq<EntityNodeView>, node: EntityNodeView) -> Seq<EntityNodeView> {
    match position_of(pool, node.uuid) {
        Some(i) => pool.update(i, node),
        None => pool.push(node),
    }
}

/// The pairs with one more, unless its two identifiers are the same.
pub open spec fn with_pair(pairs: Seq<Alias>, from: Seq<char>, to: Seq<char>) -> Seq<Alias> {
    if from != to {
        pairs.push((from, to))
    } else {
        pairs
    }
}

/// A batch with one more entity: one with the same normal form of its name stands for it, or a
/// similar one, or else itself.
pub open spec fn batch_step(s: BatchView, node: EntityNodeView) -> BatchView {
    match first_named(s.pool, helpers::normal_form(node.name)) {
        Some(known) => BatchView { pairs: with_pair(s.pairs, node.uuid, known.uuid), ..s },
        None => match dedup_index::similar_entity(dedup_index::candidates_among(s.pool), node) {
            Some(found) => BatchView {
                pool: if position_of(s.pool, found.uuid) is None {
                    s.pool.push(found)
                } else {
                    s.pool
                },
                pairs: with_pair(s.pairs, node.uuid, found.uuid),
            },
            None => BatchView { pool: upserted(s.pool, node), ..s },
        },
    }
}

/// A batch of entities, one after the other.
pub open spec fn batch(nodes: Seq<EntityNodeView>) -> BatchView
    decreases nodes.len(),
{
    if nodes.len() == 0 {
        BatchView { pool: Seq::empty(), pairs: Seq::empty() }
    } else {
        batch_step(batch(nodes.drop_last()), nodes.last())
    }
}

/// Holds where the pairs are the entries of a map in the order of their keys.
pub open spec fn lists_entries(pairs: Seq<Alias>, m: Map<Seq<char>, Seq<char>>) -> bool {
    let keys = pairs.map_values(|p: Alias| p.0);
    &&& collections::strictly_sorted(keys)
    &&& keys.to_set() == m.dom()
    &&& forall|i: int| 0 <= i < pairs.len() ==> m[(#[trigger] pairs[i]).0] == pairs[i].1
}

/// The entries of a map in the order of their keys.
pub open spec fn entries(m: Map<Seq<char>, Seq<char>>) -> Seq<Alias> {
    choose|pairs: Seq<Alias>| lists_entries(pairs, m)
}

proof fn lemma_entries_unique(a: Seq<Alias>, b: Seq<Alias>, m: Map<Seq<char>, Seq<char>>)
    requires
        lists_entries(a, m),
        lists_entries(b, m),
    ensures
        a == b,
{
    let ka = a.map_values(|p: Alias| p.0);
    let kb = b.map_values(|p: Alias| p.0);
    collections::lemma_sorted_same_set(ka, kb);
    assert(ka.len() == a.len() && kb.len() == b.len());
    assert forall|i: int| 0 <= i < a.len() implies a[i] == b[i] by {
        assert(ka[i] == a[i].0);
        assert(kb[i] == b[i].0);
    }
    assert(a =~= b);
}

/// The entities of resolutions, one resolution after the other.
pub open spec fn all_nodes(outcomes: Seq<NodeOutcomeView>) -> Seq<EntityNodeView>
    decreases outcomes.len(),
{
    if outcomes.len() == 0 {
        Seq::empty()
    } else {
        all_nodes(outcomes.drop_last()) + outcomes.last().nodes
    }
}

/// The entries of the identifier maps of resolutions, one resolution after the other.
pub open spec fn all_entries(outcomes: Seq<NodeOutcomeView>) -> Seq<Alias>
    decreases outcomes.len(),
{
    if outcomes.len() == 0 {
        Seq::empty()
    } else {
        all_entries(outcomes.drop_last()) + entries(outcomes.last().uuid_map)
    }
}

/// The duplicates of resolutions, one resolution after the other.
pub open spec fn all_duplicates(outcomes: Seq<NodeOutcomeView>) -> Seq<Alias>
    decreases outcomes.len(),
{
    if outcomes.len() == 0 {
        Seq::empty()
    } else {
        all_duplicates(outcomes.drop_last()) + outcomes.last().duplicates.map_values(
            |d: (EntityNodeView, EntityNodeView)| (d.0.uuid, d.1.uuid),
        )
    }
}

/// What the identifiers of a batch stand for: what the resolutions against the graph say and
/// what the comparison within the batch adds, with chains collapsed.
pub open spec fn batch_map(outcomes: Seq<NodeOutcomeView>) -> Map<Seq<char>, Seq<char>> {
    uuid_map::directed_roots(
        all_entries(outcomes) + all_duplicates(outcomes) + batch(all_nodes(outcomes)).pairs,
    )
}

/// What stands for the entities of an episode, each once, in the order of its first mention.
pub open spec fn projected(
    nodes: Seq<EntityNodeView>,
    m: Map<Seq<char>, Seq<char>>,
    pool: Seq<EntityNodeView>,
) -> Seq<EntityNodeView>
    decreases nodes.len(),
{
    if nodes.len() == 0 {
        Seq::empty()
    } else {
        let before = projected(nodes.drop_last(), m, pool);
        let uuid = bulk::canonical(m, nodes.last().uuid);
        if canonical_uuids(nodes.drop_last(), m).contains(uuid) {
            before
        } else {
            before.push(
                match position_of(pool, uuid) {
                    Some(i) => pool[i],
                    None => nodes.last(),
                },
            )
        }
    }
}

/// What the identifiers of entities stand for.
pub open spec fn canonical_uuids(nodes: Seq<EntityNodeView>, m: Map<Seq<char>, Seq<char>>) -> Set<
    Seq<char>,
> {
    nodes.map_values(|n: EntityNodeView| bulk::canonical(m, n.uuid)).to_set()
}

/// The views of resolutions.
pub open spec fn outcome_views(outcomes: Seq<NodeResolutionOutcome>) -> Seq<NodeOutcomeView> {
    outcomes.map_values(|o: NodeResolutionOutcome| o@)
}

/// The position of the first of the entities with an identifier.
fn find_uuid(pool: &Vec<EntityNode>, uuid: &str) -> (r: Option<usize>)
    ensures
        match position_of(types::node_views(pool@), uuid@) {
            Some(i) => r matches Some(j) && i == j && j < pool@.len(),
            None => r is None,
        },
{
    let ghost all = types::node_views(pool@);
    let mut found: Option<usize> = None;
    let mut i: usize = 0;
    while i < pool.len()
        invariant
            i <= pool@.len(),
            all == types::node_views(pool@),
            match position_of(all.take(i as int), uuid@) {
                Some(p) => found matches Some(j) && p == j && j < i,
                None => found is None,
            },
        decreases pool.len() - i,
    {
        proof {
            assert(all.take(i as int + 1).drop_last() =~= all.take(i as int));
            assert(all.take(i as int + 1).last() == pool@[i as int]@);
        }
        if found.is_none() && str_eq(pool[i].uuid.as_str(), uuid) {
            found = Some(i);
        }
        i += 1;
    }
    assert(all.take(all.len() as int) =~= all);
    found
}

/// The first of the entities whose name has a normal form.
fn find_first_named<'a>(pool: &'a Vec<EntityNode>, normal: &str) -> (r: Option<&'a EntityNode>)
    ensures
        match first_named(types::node_views(pool@), normal@) {
            Some(v) => r matches Some(n) && n@ == v,
            None => r is None,
        },
{
    let ghost all = types::node_views(pool@);
    let mut found: Option<usize> = None;
    let mut i: usize = 0;
    while i < pool.len()
        invariant
            i <= pool@.len(),
            all == types::node_views(pool@),
            match first_named(all.take(i as int), normal@) {
                Some(v) => found matches Some(j) && j < i && all[j as int] == v,
                None => found is None,
            },
        decreases pool.len() - i,
    {
        proof {
            assert(all.take(i as int + 1).drop_last() =~= all.take(i as int));
            assert(all.take(i as int + 1).last() == pool@[i as int]@);
            assert(all[i as int] == pool@[i as int]@);
        }
        if found.is_none() {
            let other = normalize_string_exact(pool[i].name.as_str());
            if str_eq(other.as_str(), normal) {
                found = Some(i);
            }
        }
        i += 1;
    }
    assert(all.take(all.len() as int) =~= all);
    match found {
        Some(j) => {
            assert(all[j as int] == pool@[j as int]@);
            Some(&pool[j])
        },
        None => None,
    }
}

fn push_pair(pairs: &mut Vec<(String, String)>, from: &str, to: &str)
    ensures
        uuid_map::aliases(final(pairs)@) == with_pair(uuid_map::aliases(old(pairs)@), from@, to@),
{
    if !str_eq(from, to) {
        let ghost before = pairs@;
        pairs.push((owned(from), owned(to)));
        assert(uuid_map::aliases(pairs@) =~= uuid_map::aliases(before).push((from@, to@)));
    }
}

/// Adds an entity to a batch.
fn add_to_batch(pool: &mut Vec<EntityNode>, pairs: &mut Vec<(String, String)>, node: &EntityNode)
    ensures
        ({
            let before = BatchView {
                pool: types::node_views(old(pool)@),
                pairs: uuid_map::aliases(old(pairs)@),
            };
            let after = batch_step(before, node@);
            types::node_views(final(pool)@) == after.pool && uuid_map::aliases(final(pairs)@) == after.pairs
        }),
{
    let normal = normalize_string_exact(node.name.as_str());
    match find_first_named(pool, normal.as_str()) {
        Some(known) => {
            push_pair(pairs, node.uuid.as_str(), known.uuid.as_str());
            return;
        },
        None => {},
    }
    let indexes = build_candidate_indexes(clone_nodes(pool));
    let ghost start = pool@;
    match find_similar(&indexes, node) {
        Some(found) => {
            push_pair(pairs, node.uuid.as_str(), found.uuid.as_str());
            if find_uuid(pool, found.uuid.as_str()).is_none() {
                let ghost f = found@;
                pool.push(found);
                assert(types::node_views(pool@) =~= types::node_views(start).push(f));
            }
        },
        None => match find_uuid(pool, node.uuid.as_str()) {
            Some(i) => {
                pool.set(i, node.clone());
                assert(
                    types::node_views(pool@) =~= types::node_views(start).update(i as int, node@)
                );
            },
            None => {
                pool.push(node.clone());
                assert(types::node_views(pool@) =~= types::node_views(start).push(node@));
            },
        },
    }
}

/// Appends the entries of an identifier map in the order of their keys.
fn append_entries(pairs: &mut Vec<(String, String)>, m: &StringMap<String>)
    ensures
        uuid_map::aliases(final(pairs)@) == uuid_map::aliases(old(pairs)@) + entries(
            uuid_map::text_map(m@),
        ),
{
    let ghost start = uuid_map::aliases(pairs@);
    let n = m.len();
    let mut i: usize = 0;
    let ghost listed = Seq::new(n as nat, |j: int| (m.keys()[j], m@[m.keys()[j]]@));
    assert(uuid_map::aliases(pairs@) =~= start + listed.take(0));
    while i < n
        invariant
            i <= n,
            n == m.keys().len(),
            listed == Seq::new(n as nat, |j: int| (m.keys()[j], m@[m.keys()[j]]@)),
            uuid_map::aliases(pairs@) == start + listed.take(i as int),
        decreases n - i,
    {
        let ghost before = pairs@;
        pairs.push((m.key_at(i).clone(), m.value_at(i).clone()));
        assert(uuid_map::aliases(pairs@) =~= uuid_map::aliases(before).push(listed[i as int]));
        assert(uuid_map::aliases(pairs@) =~= start + listed.take(i as int + 1));
        i += 1;
    }
    proof {
        assert(listed.take(n as int) =~= listed);
        let keys = listed.map_values(|p: Alias| p.0);
        assert(keys =~= m.keys());
        assert(keys.to_set() =~= uuid_map::text_map(m@).dom()) by {
            assert forall|k: Seq<char>| keys.to_set().contains(k) == uuid_map::text_map(m@).dom().contains(
                k,
            ) by {}
        }
        assert forall|j: int| 0 <= j < listed.len() implies uuid_map::text_map(m@)[(#[trigger] listed[j]).0]
            == listed[j].1 by {
            assert(m.keys().contains(m.keys()[j]));
        }
        assert(lists_entries(listed, uuid_map::text_map(m@)));
        lemma_entries_unique(listed, entries(uuid_map::text_map(m@)), uuid_map::text_map(m@));
    }
}

/// Appends the identifiers of duplicates.
fn append_duplicates(pairs: &mut Vec<(String, String)>, duplicates: &Vec<(EntityNode, EntityNode)>)
    ensures
        uuid_map::aliases(final(pairs)@) == uuid_map::aliases(old(pairs)@)
            + node_ops::node_pair_views(duplicates@).map_values(
            |d: (EntityNodeView, EntityNodeView)| (d.0.uuid, d.1.uuid),
        ),
{
    let ghost start = uuid_map::aliases(pairs@);
    let ghost all = node_ops::node_pair_views(duplicates@).map_values(
        |d: (EntityNodeView, EntityNodeView)| (d.0.uuid, d.1.uuid),
    );
    let mut i: usize = 0;
    assert(uuid_map::aliases(pairs@) =~= start + all.take(0));
    while i < duplicates.len()
        invariant
            i <= duplicates@.len(),
            all == node_ops::node_pair_views(duplicates@).map_values(
                |d: (EntityNodeView, EntityNodeView)| (d.0.uuid, d.1.uuid),
            ),
            uuid_map::aliases(pairs@) == start + all.take(i as int),
        decreases duplicates.len() - i,
    {
        let ghost before = pairs@;
        pairs.push((duplicates[i].0.uuid.clone(), duplicates[i].1.uuid.clone()));
        assert(all[i as int] == (duplicates@[i as int].0@.uuid, duplicates@[i as int].1@.uuid));
        assert(uuid_map::aliases(pairs@) =~= uuid_map::aliases(before).push(all[i as int]));
        assert(uuid_map::aliases(pairs@) =~= start + all.take(i as int + 1));
        i += 1;
    }
    assert(all.take(all.len() as int) =~= all);
}

/// What stands for the entities of an episode, each once.
fn project_nodes(nodes: &Vec<EntityNode>, m: &StringMap<String>, pool: &Vec<EntityNode>) -> (r: Vec<
    EntityNode,
>)
    ensures
        types::node_views(r@) == projected(
            types::node_views(nodes@),
            uuid_map::text_map(m@),
            types::node_views(pool@),
        ),
{
    let ghost all = types::node_views(nodes@);
    let ghost map = uuid_map::text_map(m@);
    let ghost known = types::node_views(pool@);
    let mut out: Vec<EntityNode> = Vec::new();
    let mut seen = StringSet::new();
    let mut i: usize = 0;
    assert(types::node_views(out@) =~= projected(all.take(0), map, known));
    assert(seen@ =~= canonical_uuids(all.take(0), map));
    while i < nodes.len()
        invariant
            i <= nodes@.len(),
            all == types::node_views(nodes@),
            map == uuid_map::text_map(m@),
            known == types::node_views(pool@),
            types::node_views(out@) == projected(all.take(i as int), map, known),
            seen@ == canonical_uuids(all.take(i as int), map),
        decreases nodes.len() - i,
    {
        proof {
            assert(all.take(i as int + 1).drop_last() =~= all.take(i as int));
            assert(all.take(i as int + 1).last() == nodes@[i as int]@);
            lemma_canonical_push(all.take(i as int), nodes@[i as int]@, map);
            assert(all.take(i as int + 1) =~= all.take(i as int).push(nodes@[i as int]@));
        }
        let uuid = canonical_uuid(m, nodes[i].uuid.as_str());
        if seen.insert(uuid.clone()) {
            let node = match find_uuid(pool, uuid.as_str()) {
                Some(j) => {
                    assert(known[j as int] == pool@[j as int]@);
                    pool[j].clone()
                },
                None => nodes[i].clone(),
            };
            let ghost before = out@;
            out.push(node);
            assert(types::node_views(out@) =~= types::node_views(before).push(node@));
        }
        i += 1;
    }
    assert(all.take(all.len() as int) =~= all);
    out
}

proof fn lemma_canonical_push(
    nodes: Seq<EntityNodeView>,
    node: EntityNodeView,
    m: Map<Seq<char>, Seq<char>>,
)
    ensures
        canonical_uuids(nodes.push(node), m) == canonical_uuids(nodes, m).insert(
            bulk::canonical(m, node.uuid),
        ),
{
    let before = nodes.map_values(|n: EntityNodeView| bulk::canonical(m, n.uuid));
    let after = nodes.push(node).map_values(|n: EntityNodeView| bulk::canonical(m, n.uuid));
    let last = bulk::canonical(m, node.uuid);
    assert(after =~= before.push(last));
    assert forall|x: Seq<char>| after.to_set().contains(x) == before.to_set().insert(last).contains(
        x,
    ) by {
        if before.contains(x) {
            let k = choose|k: int| 0 <= k < before.len() && before[k] == x;
            assert(after[k] == x);
        }
        if x == last {
            assert(after[nodes.len() as int] == x);
        }
        if after.contains(x) {
            let k = choose|k: int| 0 <= k < after.len() && after[k] == x;
            if k < nodes.len() {
                assert(before[k] == x);
            }
        }
    }
    assert(after.to_set() =~= before.to_set().insert(last));
}

/// Merges the entities of a batch, once those of each episode were resolved against the graph.
/// Returns what stands for the entities of each episode and what each identifier stands for.
pub fn dedupe_resolved_nodes(outcomes: &Vec<NodeResolutionOutcome>) -> (r: (
    Vec<Vec<EntityNode>>,
    StringMap<String>,
))
    ensures
        uuid_map::text_map(r.1@) == batch_map(outcome_views(outcomes@)),
        node_ops::node_list_views(r.0@) == outcome_views(outcomes@).map_values(
            |o: NodeOutcomeView|
                projected(
                    o.nodes,
                    batch_map(outcome_views(outcomes@)),
                    batch(all_nodes(outcome_views(outcomes@))).pool,
                ),
        ),
{
    let ghost all = outcome_views(outcomes@);
    let mut pool: Vec<EntityNode> = Vec::new();
    let mut pairs: Vec<(String, String)> = Vec::new();
    let mut within: Vec<(String, String)> = Vec::new();
    let mut i: usize = 0;
    proof {
        assert(all_entries(all.take(0)) =~= Seq::<Alias>::empty());
        assert(uuid_map::aliases(pairs@) =~= Seq::<Alias>::empty());
        assert(uuid_map::aliases(within@) =~= Seq::<Alias>::empty());
        assert(types::node_views(pool@) =~= Seq::<EntityNodeView>::empty());
        assert(all_nodes(all.take(0)) =~= Seq::<EntityNodeView>::empty());
    }
    while i < outcomes.len()
        invariant
            i <= outcomes@.len(),
            all == outcome_views(outcomes@),
            uuid_map::aliases(pairs@) == all_entries(all.take(i as int)),
            types::node_views(pool@) == batch(all_nodes(all.take(i as int))).pool,
            uuid_map::aliases(within@) == batch(all_nodes(all.take(i as int))).pairs,
        decreases outcomes.len() - i,
    {
        let outcome = &outcomes[i];
        proof {
            assert(all.take(i as int + 1).drop_last() =~= all.take(i as int));
            assert(all.take(i as int + 1).last() == outcome@);
        }
        append_entries(&mut pairs, &outcome.uuid_map);
        let ghost done = all_nodes(all.take(i as int));
        let ghost more = types::node_views(outcome.nodes@);
        let mut k: usize = 0;
        assert(done + more.take(0) =~= done);
        while k < outcome.nodes.len()
            invariant
                k <= outcome.nodes@.len(),
                more == types::node_views(outcome.nodes@),
                types::node_views(pool@) == batch(done + more.take(k as int)).pool,
                uuid_map::aliases(within@) == batch(done + more.take(k as int)).pairs,
            decreases outcome.nodes.len() - k,
        {
            proof {
                let next = done + more.take(k as int + 1);
                assert(next.drop_last() =~= done + more.take(k as int));
                assert(next.last() == outcome.nodes@[k as int]@);
            }
            add_to_batch(&mut pool, &mut within, &outcome.nodes[k]);
            k += 1;
        }
        assert(more.take(more.len() as int) =~= more);
        i += 1;
    }
    assert(all.take(all.len() as int) =~= all);
    let ghost maps = uuid_map::aliases(pairs@);
    let mut d: usize = 0;
    assert(uuid_map::aliases(pairs@) =~= maps + all_duplicates(all.take(0)));
    while d < outcomes.len()
        invariant
            d <= outcomes@.len(),
            all == outcome_views(outcomes@),
            uuid_map::aliases(pairs@) == maps + all_duplicates(all.take(d as int)),
        decreases outcomes.len() - d,
    {
        proof {
            assert(all.take(d as int + 1).drop_last() =~= all.take(d as int));
            assert(all.take(d as int + 1).last() == outcomes@[d as int]@);
        }
        append_duplicates(&mut pairs, &outcomes[d].duplicates);
        assert(uuid_map::aliases(pairs@) =~= maps + all_duplicates(all.take(d as int + 1)));
        d += 1;
    }
    let ghost before = pairs@;
    let ghost added = within@;
    pairs.append(&mut within);
    assert(uuid_map::aliases(pairs@) =~= uuid_map::aliases(before) + uuid_map::aliases(added));
    let map = build_directed_uuid_map(pairs.as_slice());
    let mut lists: Vec<Vec<EntityNode>> = Vec::new();
    let mut p: usize = 0;
    while p < outcomes.len()
        invariant
            p <= outcomes@.len(),
            all == outcome_views(outcomes@),
            lists@.len() == p,
            forall|j: int|
                0 <= j < p ==> types::node_views((#[trigger] lists@[j])@) == projected(
                    all[j].nodes,
                    uuid_map::text_map(map@),
                    types::node_views(pool@),
                ),
        decreases outcomes.len() - p,
    {
        assert(all[p as int].nodes == types::node_views(outcomes@[p as int].nodes@));
        lists.push(project_nodes(&outcomes[p].nodes, &map, &pool));
        p += 1;
    }
    proof {
        let goal = all.map_values(
            |o: NodeOutcomeView| projected(
                o.nodes,
                uuid_map::text_map(map@),
                types::node_views(pool@),
            ),
        );
        assert(node_ops::node_list_views(lists@) =~= goal);
    }
    (lists, map)
}

/// The words of a fact, in lowercase.
pub open spec fn fact_words(fact: Seq<char>) -> Seq<Seq<char>> {
    text::words(text::lowercase(fact))
}

/// Holds where two facts have a word in common.
pub open spec fn share_a_word(a: Seq<char>, b: Seq<char>) -> bool {
    exists|w: Seq<char>| #[trigger] fact_words(a).contains(w) && fact_words(b).contains(w)
}

/// Holds where a fact of a batch may be the same as another: they are between the same entities
/// and have a word in common or are similar.
pub open spec fn is_batch_candidate(e: EntityEdgeView, other: EntityEdgeView, similar: bool) -> bool {
    &&& e.uuid != other.uuid
    &&& e.source_node_uuid == other.source_node_uuid
    &&& e.target_node_uuid == other.target_node_uuid
    &&& share_a_word(e.fact, other.fact) || similar
}

/// The facts of a batch that may be the same as one of it, in order.
pub open spec fn batch_candidates(
    e: EntityEdgeView,
    all: Seq<EntityEdgeView>,
    similar: Seq<bool>,
) -> Seq<EntityEdgeView>
    decreases all.len(),
{
    if all.len() == 0 {
        Seq::empty()
    } else {
        let before = batch_candidates(e, all.drop_last(), similar);
        if is_batch_candidate(e, all.last(), similar[all.len() - 1]) {
            before.push(all.last())
        } else {
            before
        }
    }
}

/// Tells whether two facts have a word in common.
pub fn has_common_word(a: &str, b: &str) -> (r: bool)
    ensures
        r == share_a_word(a@, b@),
{
    let lower_a = lowercased(a);
    let lower_b = lowercased(b);
    let words_a = split_words(lower_a.as_str());
    let words_b = split_words(lower_b.as_str());
    let mut i: usize = 0;
    while i < words_a.len()
        invariant
            i <= words_a@.len(),
            text::views(words_a@) == fact_words(a@),
            text::views(words_b@) == fact_words(b@),
            forall|j: int| 0 <= j < i ==> !fact_words(b@).contains(#[trigger] fact_words(a@)[j]),
        decreases words_a.len() - i,
    {
        assert(fact_words(a@)[i as int] == words_a@[i as int]@);
        if holds(&words_b, words_a[i].as_str()) {
            proof {
                let w = words_a@[i as int]@;
                assert(fact_words(a@).contains(w)) by {
                    assert(fact_words(a@)[i as int] == w);
                }
                assert(fact_words(b@).contains(w));
            }
            return true;
        }
        i += 1;
    }
    proof {
        if share_a_word(a@, b@) {
            let w = choose|w: Seq<char>| #[trigger] fact_words(a@).contains(w) && fact_words(b@).contains(
                w,
            );
            let j = choose|j: int| 0 <= j < fact_words(a@).len() && fact_words(a@)[j] == w;
            assert(!fact_words(b@).contains(fact_words(a@)[j]));
        }
    }
    false
}

/// The facts of a batch that may be the same as one of it. `similar` says of each fact of the
/// batch whether its embedding is similar.
pub fn find_batch_candidates(edge: &EntityEdge, all_edges: &Vec<EntityEdge>, similar: &Vec<bool>) -> (r:
    Vec<EntityEdge>)
    requires
        similar@.len() == all_edges@.len(),
    ensures
        types::edge_views(r@) == batch_candidates(edge@, types::edge_views(all_edges@), similar@),
{
    let ghost all = types::edge_views(all_edges@);
    let mut out: Vec<EntityEdge> = Vec::new();
    let mut i: usize = 0;
    assert(types::edge_views(out@) =~= batch_candidates(edge@, all.take(0), similar@));
    while i < all_edges.len()
        invariant
            i <= all_edges@.len(),
            all == types::edge_views(all_edges@),
            similar@.len() == all_edges@.len(),
            types::edge_views(out@) == batch_candidates(edge@, all.take(i as int), similar@),
        decreases all_edges.len() - i,
    {
        proof {
            assert(all.take(i as int + 1).drop_last() =~= all.take(i as int));
            assert(all.take(i as int + 1).last() == all_edges@[i as int]@);
        }
        let other = &all_edges[i];
        if !str_eq(edge.uuid.as_str(), other.uuid.as_str()) && str_eq(
            edge.source_node_uuid.as_str(),
            other.source_node_uuid.as_str(),
        ) && str_eq(edge.target_node_uuid.as_str(), other.target_node_uuid.as_str()) && (
        has_common_word(edge.fact.as_str(), other.fact.as_str()) || similar[i]) {
            let ghost before = out@;
            out.push(other.clone());
            assert(types::edge_views(out@) =~= types::edge_views(before).push(other@));
        }
        i += 1;
    }
    assert(all.take(all.len() as int) =~= all);
    out
}

/// The views of lists of facts.
pub open spec fn edge_list_views(lists: Seq<Vec<EntityEdge>>) -> Seq<Seq<EntityEdgeView>> {
    lists.map_values(|l: Vec<EntityEdge>| types::edge_views(l@))
}

/// The facts of lists, one list after the other.
pub open spec fn flattened(lists: Seq<Seq<EntityEdgeView>>) -> Seq<EntityEdgeView>
    decreases lists.len(),
{
    if lists.len() == 0 {
        Seq::empty()
    } else {
        flattened(lists.drop_last()) + lists.last()
    }
}

/// The facts of lists, one list after the other.
pub fn flatten_edges(lists: &Vec<Vec<EntityEdge>>) -> (r: Vec<EntityEdge>)
    ensures
        types::edge_views(r@) == flattened(edge_list_views(lists@)),
{
    let ghost all = edge_list_views(lists@);
    let mut out: Vec<EntityEdge> = Vec::new();
    let mut i: usize = 0;
    assert(types::edge_views(out@) =~= flattened(all.take(0)));
    while i < lists.len()
        invariant
            i <= lists@.len(),
            all == edge_list_views(lists@),
            types::edge_views(out@) == flattened(all.take(i as int)),
        decreases lists.len() - i,
    {
        proof {
            assert(all.take(i as int + 1).drop_last() =~= all.take(i as int));
            assert(all.take(i as int + 1).last() == types::edge_views(lists@[i as int]@));
        }
        let mut more = clone_edges(&lists[i]);
        let ghost before = out@;
        let ghost added = more@;
        out.append(&mut more);
        assert(types::edge_views(out@) =~= types::edge_views(before) + types::edge_views(added));
        i += 1;
    }
    assert(all.take(all.len() as int) =~= all);
    out
}

/// The pairs of a fact and the known fact that stands in its place, as resolutions found them, as
/// far as these reach.
pub open spec fn fact_aliases(edges: Seq<EntityEdgeView>, resolved: Seq<EntityEdgeView>) -> Seq<Alias>
    decreases edges.len(),
{
    if edges.len() == 0 {
        Seq::empty()
    } else if edges.len() <= resolved.len() {
        with_pair(
            fact_aliases(edges.drop_last(), resolved),
            edges.last().uuid,
            resolved[edges.len() - 1].uuid,
        )
    } else {
        fact_aliases(edges.drop_last(), resolved)
    }
}

/// The pairs of duplicates among the facts of a batch, from what each resolved to.
pub fn duplicate_pairs(edges: &Vec<EntityEdge>, resolved: &Vec<EntityEdge>) -> (r: Vec<
    (String, String),
>)
    ensures
        uuid_map::aliases(r@) == fact_aliases(
            types::edge_views(edges@),
            types::edge_views(resolved@),
        ),
{
    let ghost all = types::edge_views(edges@);
    let ghost found = types::edge_views(resolved@);
    let mut out: Vec<(String, String)> = Vec::new();
    let mut i: usize = 0;
    assert(uuid_map::aliases(out@) =~= fact_aliases(all.take(0), found));
    while i < edges.len()
        invariant
            i <= edges@.len(),
            all == types::edge_views(edges@),
            found == types::edge_views(resolved@),
            uuid_map::aliases(out@) == fact_aliases(all.take(i as int), found),
        decreases edges.len() - i,
    {
        proof {
            assert(all.take(i as int + 1).drop_last() =~= all.take(i as int));
            assert(all.take(i as int + 1).last() == edges@[i as int]@);
        }
        if i < resolved.len() {
            assert(found[i as int] == resolved@[i as int]@);
            push_pair(&mut out, edges[i].uuid.as_str(), resolved[i].uuid.as_str());
        }
        i += 1;
    }
    assert(all.take(all.len() as int) =~= all);
    out
}

/// The last of the facts with an identifier.
pub open spec fn last_fact_with(edges: Seq<EntityEdgeView>, uuid: Seq<char>) -> Option<EntityEdgeView>
    decreases edges.len(),
{
    if edges.len() == 0 {
        None
    } else if edges.last().uuid == uuid {
        Some(edges.last())
    } else {
        last_fact_with(edges.drop_last(), uuid)
    }
}

/// What stands for a fact of a batch.
pub open spec fn projected_fact(
    e: EntityEdgeView,
    all: Seq<EntityEdgeView>,
    m: Map<Seq<char>, Seq<char>>,
) -> EntityEdgeView {
    match last_fact_with(all, bulk::canonical(m, e.uuid)) {
        Some(found) => found,
        None => e,
    }
}

fn find_fact<'a>(edges: &'a Vec<EntityEdge>, uuid: &str) -> (r: Option<&'a EntityEdge>)
    ensures
        match last_fact_with(types::edge_views(edges@), uuid@) {
            Some(v) => r matches Some(e) && e@ == v,
            None => r is None,
        },
{
    let ghost all = types::edge_views(edges@);
    let mut i: usize = edges.len();
    assert(all.take(i as int) =~= all);
    while i > 0
        invariant
            i <= edges@.len(),
            all == types::edge_views(edges@),
            last_fact_with(all, uuid@) == last_fact_with(all.take(i as int), uuid@),
        decreases i,
    {
        proof {
            assert(all.take(i as int).last() == edges@[i - 1]@);
            assert(all.take(i as int).drop_last() =~= all.take(i - 1));
        }
        if str_eq(edges[i - 1].uuid.as_str(), uuid) {
            return Some(&edges[i - 1]);
        }
        i -= 1;
    }
    None
}

/// What stands for the facts of each episode, given the pairs of duplicates.
pub fn project_edges(lists: &Vec<Vec<EntityEdge>>, pairs: &[(String, String)]) -> (r: Vec<
    Vec<EntityEdge>,
>)
    ensures
        edge_list_views(r@) == edge_list_views(lists@).map_values(
            |l: Seq<EntityEdgeView>|
                l.map_values(
                    |e: EntityEdgeView|
                        projected_fact(
                            e,
                            flattened(edge_list_views(lists@)),
                            uuid_map::smallest_roots(uuid_map::aliases(pairs@)),
                        ),
                ),
        ),
{
    let map = compress_uuid_map(pairs);
    let pool = flatten_edges(lists);
    let ghost m = uuid_map::text_map(map@);
    let ghost all = types::edge_views(pool@);
    let mut out: Vec<Vec<EntityEdge>> = Vec::new();
    let mut i: usize = 0;
    while i < lists.len()
        invariant
            i <= lists@.len(),
            m == uuid_map::text_map(map@),
            all == types::edge_views(pool@),
            out@.len() == i,
            forall|j: int|
                0 <= j < i ==> types::edge_views((#[trigger] out@[j])@) == types::edge_views(
                    lists@[j]@,
                ).map_values(|e: EntityEdgeView| projected_fact(e, all, m)),
        decreases lists.len() - i,
    {
        let list = &lists[i];
        let mut mapped: Vec<EntityEdge> = Vec::new();
        let mut k: usize = 0;
        while k < list.len()
            invariant
                k <= list@.len(),
                m == uuid_map::text_map(map@),
                all == types::edge_views(pool@),
                mapped@.len() == k,
                forall|j: int|
                    0 <= j < k ==> (#[trigger] mapped@[j])@ == projected_fact(list@[j]@, all, m),
            decreases list.len() - k,
        {
            let uuid = canonical_uuid(&map, list[k].uuid.as_str());
            let e = match find_fact(&pool, uuid.as_str()) {
                Some(found) => found.clone(),
                None => list[k].clone(),
            };
            mapped.push(e);
            k += 1;
        }
        assert(types::edge_views(mapped@) =~= types::edge_views(list@).map_values(
            |e: EntityEdgeView| projected_fact(e, all, m),
        ));
        out.push(mapped);
        i += 1;
    }
    assert(edge_list_views(out@) =~= edge_list_views(lists@).map_values(
        |l: Seq<EntityEdgeView>| l.map_values(|e: EntityEdgeView| projected_fact(e, all, m)),
    ));
    out
}

/// Holds where no two entities have the same identifier or the same normal form of their names.
pub open spec fn all_different(pool: Seq<EntityNodeView>) -> bool {
    forall|i: int, j: int|
        0 <= i < pool.len() && 0 <= j < pool.len() && i != j ==> {
            &&& (#[trigger] pool[i]).uuid != (#[trigger] pool[j]).uuid
            &&& helpers::normal_form(pool[i].name) != helpers::normal_form(pool[j].name)
        }
}

proof fn lemma_no_name(pool: Seq<EntityNodeView>, normal: Seq<char>, i: int)
    requires
        first_named(pool, normal) is None,
        0 <= i < pool.len(),
    ensures
        helpers::normal_form(pool[i].name) != normal,
    decreases pool.len(),
{
    if i < pool.len() - 1 {
        lemma_no_name(pool.drop_last(), normal, i);
    }
}

proof fn lemma_position(pool: Seq<EntityNodeView>, uuid: Seq<char>)
    ensures
        match position_of(pool, uuid) {
            Some(i) => 0 <= i < pool.len() && pool[i].uuid == uuid,
            None => forall|i: int| 0 <= i < pool.len() ==> (#[trigger] pool[i]).uuid != uuid,
        },
    decreases pool.len(),
{
    if pool.len() > 0 {
        let init = pool.drop_last();
        lemma_position(init, uuid);
        if position_of(pool, uuid) is None {
            assert forall|i: int| 0 <= i < pool.len() implies (#[trigger] pool[i]).uuid != uuid by {
                if i < init.len() {
                    assert(init[i].uuid != uuid);
                }
            }
        }
    }
}

/// Within a batch what is the same is merged: no two of the entities that are left have the same
/// identifier or the same normal form of their names.
pub proof fn law_batch_has_no_duplicates(nodes: Seq<EntityNodeView>)
    ensures
        all_different(batch(nodes).pool),
    decreases nodes.len(),
{
    if nodes.len() > 0 {
        law_batch_has_no_duplicates(nodes.drop_last());
        let s = batch(nodes.drop_last());
        let node = nodes.last();
        let normal = helpers::normal_form(node.name);
        if first_named(s.pool, normal) is None {
            let similar = dedup_index::similar_entity(dedup_index::candidates_among(s.pool), node);
            dedup_index::law_duplicate_is_a_known_entity(s.pool, node);
            match similar {
                Some(found) => {
                    let k = choose|k: int|
                        0 <= k < s.pool.len() && found == dedup_index::promoted(
                            node,
                            #[trigger] s.pool[k],
                        );
                    lemma_position(s.pool, found.uuid);
                    assert(s.pool[k].uuid == found.uuid);
                },
                None => {
                    lemma_position(s.pool, node.uuid);
                    let after = upserted(s.pool, node);
                    assert forall|i: int, j: int|
                        0 <= i < after.len() && 0 <= j < after.len() && i != j implies {
                        &&& (#[trigger] after[i]).uuid != (#[trigger] after[j]).uuid
                        &&& helpers::normal_form(after[i].name) != helpers::normal_form(
                            after[j].name,
                        )
                    } by {
                        if i < s.pool.len() {
                            lemma_no_name(s.pool, normal, i);
                        }
                        if j < s.pool.len() {
                            lemma_no_name(s.pool, normal, j);
                        }
                    }
                },
            }
        }
    }
}

} // verus!
