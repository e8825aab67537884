//! What a search keeps to, stated on the lists that go in and the results that come out.
use crate::double;
use crate::pipeline::dedup_index;
use crate::score::Score;
use crate::search::config::{EdgeSearchMethod, NodeSearchMethod};
use crate::search::edge_search;
use crate::search::found::{self, Found};
use crate::search::node_search;
use crate::search::query;
use crate::search::rerank;
use crate::search::rrf;
use crate::search::step::{self, SearchCallView, SearchPlan};
use crate::selection;
use crate::sorting;
use crate::types::edge::EntityEdgeView;
use vstd::prelude::*;

verus! {

/// Of equal texts the first is left, in order.
pub proof fn law_first_occurrences_are_left(s: Seq<Seq<char>>) -> (at: Seq<int>)
    ensures
        selection::selects(
            s,
            dedup_index::first_seen(s),
            at,
            |i: int, x: Seq<char>| forall|j: int| 0 <= j < i ==> #[trigger] s[j] != x,
            |x: Seq<char>| x,
        ),
    decreases s.len(),
{
    let keep = |i: int, x: Seq<char>| forall|j: int| 0 <= j < i ==> #[trigger] s[j] != x;
    let make = |x: Seq<char>| x;
    if s.len() == 0 {
        Seq::empty()
    } else {
        let init = s.drop_last();
        let n = s.len() - 1;
        let had = |i: int, x: Seq<char>| forall|j: int| 0 <= j < i ==> #[trigger] init[j] != x;
        let before = law_first_occurrences_are_left(init);
        let out = dedup_index::first_seen(init);
        assert forall|i: int| 0 <= i < n implies had(i, #[trigger] s[i]) == keep(i, s[i]) by {
            assert forall|j: int| 0 <= j < i implies #[trigger] init[j] == s[j] by {}
            if had(i, s[i]) {
                assert forall|j: int| 0 <= j < i implies #[trigger] s[j] != s[i] by {
                    assert(init[j] == s[j]);
                }
            }
        }
        selection::lemma_selects_next(s, out, before, had, keep, make);
        assert(out.contains(s.last()) == !keep(n, s.last())) by {
            if out.contains(s.last()) {
                let k = choose|k: int| 0 <= k < out.len() && out[k] == s.last();
                assert(s[before[k]] == s.last());
            }
            if !keep(n, s.last()) {
                let j = choose|j: int| 0 <= j < n && #[trigger] s[j] == s.last();
                let q = lemma_first_occurrence(init, j);
                let k = choose|k: int| 0 <= k < before.len() && before[k] == q;
                assert(out[k] == s.last());
            }
        }
        if keep(n, s.last()) {
            before.push(n)
        } else {
            before
        }
    }
}

proof fn lemma_first_occurrence(s: Seq<Seq<char>>, p: int) -> (q: int)
    requires
        0 <= p < s.len(),
    ensures
        0 <= q <= p,
        s[q] == s[p],
        forall|j: int| 0 <= j < q ==> #[trigger] s[j] != s[q],
    decreases p,
{
    if exists|j: int| 0 <= j < p && #[trigger] s[j] == s[p] {
        let j = choose|j: int| 0 <= j < p && #[trigger] s[j] == s[p];
        lemma_first_occurrence(s, j)
    } else {
        p
    }
}

/// First occurrences have every text, and each once.
pub proof fn law_first_occurrences_have_all(s: Seq<Seq<char>>, x: Seq<char>)
    ensures
        s.contains(x) <==> dedup_index::first_seen(s).contains(x),
        forall|i: int, j: int|
            0 <= i < j < dedup_index::first_seen(s).len() ==> #[trigger] dedup_index::first_seen(
                s,
            )[i] != #[trigger] dedup_index::first_seen(s)[j],
{
    let out = dedup_index::first_seen(s);
    let at = law_first_occurrences_are_left(s);
    if s.contains(x) {
        let p = choose|p: int| 0 <= p < s.len() && s[p] == x;
        let q = lemma_first_occurrence(s, p);
        let k = choose|k: int| 0 <= k < at.len() && at[k] == q;
        assert(out[k] == x);
    }
    if out.contains(x) {
        let k = choose|k: int| 0 <= k < out.len() && out[k] == x;
        assert(s[at[k]] == x);
    }
    assert forall|i: int, j: int| 0 <= i < j < out.len() implies #[trigger] out[i]
        != #[trigger] out[j] by {
        assert(at[i] < at[j]);
        assert(s[at[i]] != s[at[j]]);
    }
}

/// Of scored identifiers exactly those are left whose score is at least the least one, in order.
pub proof fn law_low_scores_go(pairs: Seq<(Seq<char>, Score)>, min: Score) -> (at: Seq<int>)
    ensures
        selection::selects(
            pairs,
            rrf::high_enough(pairs, min),
            at,
            |i: int, p: (Seq<char>, Score)| p.1.at_least(min),
            |p: (Seq<char>, Score)| p,
        ),
    decreases pairs.len(),
{
    let keep = |i: int, p: (Seq<char>, Score)| p.1.at_least(min);
    let make = |p: (Seq<char>, Score)| p;
    if pairs.len() == 0 {
        Seq::empty()
    } else {
        let init = pairs.drop_last();
        let before = law_low_scores_go(init, min);
        selection::lemma_selects_next(
            pairs,
            rrf::high_enough(init, min),
            before,
            keep,
            keep,
            make,
        );
        if keep(pairs.len() - 1, pairs.last()) {
            before.push(pairs.len() - 1)
        } else {
            before
        }
    }
}

/// The identifiers that are asked about are those that are not the center, as they are and in
/// order.
pub proof fn law_center_is_not_asked_about(uuids: Seq<Seq<char>>, center: Seq<char>) -> (at: Seq<int>)
    ensures
        selection::selects(
            uuids,
            rerank::others(uuids, center),
            at,
            |i: int, u: Seq<char>| u != center,
            |u: Seq<char>| u,
        ),
    decreases uuids.len(),
{
    let keep = |i: int, u: Seq<char>| u != center;
    let make = |u: Seq<char>| u;
    if uuids.len() == 0 {
        Seq::empty()
    } else {
        let init = uuids.drop_last();
        let before = law_center_is_not_asked_about(init, center);
        selection::lemma_selects_next(
            uuids,
            rerank::others(init, center),
            before,
            keep,
            keep,
            make,
        );
        if keep(uuids.len() - 1, uuids.last()) {
            before.push(uuids.len() - 1)
        } else {
            before
        }
    }
}

/// The identifiers whose embeddings are known are left, and no others, in order.
pub proof fn law_embedded_identifiers_are_left(uuids: Seq<Seq<char>>, known: Set<Seq<char>>) -> (at:
    Seq<int>)
    ensures
        selection::selects(
            uuids,
            rerank::embedded(uuids, known),
            at,
            |i: int, u: Seq<char>| known.contains(u),
            |u: Seq<char>| u,
        ),
    decreases uuids.len(),
{
    let keep = |i: int, u: Seq<char>| known.contains(u);
    let make = |u: Seq<char>| u;
    if uuids.len() == 0 {
        Seq::empty()
    } else {
        let init = uuids.drop_last();
        let before = law_embedded_identifiers_are_left(init, known);
        selection::lemma_selects_next(
            uuids,
            rerank::embedded(init, known),
            before,
            keep,
            keep,
            make,
        );
        if keep(uuids.len() - 1, uuids.last()) {
            before.push(uuids.len() - 1)
        } else {
            before
        }
    }
}

proof fn lemma_group(
    uuids: Seq<Seq<char>>,
    center: Seq<char>,
    connected: Set<Seq<char>>,
    inside: bool,
    score: Score,
) -> (at: Seq<int>)
    ensures
        selection::selects(
            uuids,
            rerank::all_scored(
                rerank::among(rerank::others(uuids, center), connected, inside),
                score,
            ),
            at,
            |i: int, u: Seq<char>| u != center && connected.contains(u) == inside,
            |u: Seq<char>| (u, score),
        ),
    decreases uuids.len(),
{
    let keep = |i: int, u: Seq<char>| u != center && connected.contains(u) == inside;
    let make = |u: Seq<char>| (u, score);
    if uuids.len() == 0 {
        Seq::empty()
    } else {
        let init = uuids.drop_last();
        let last = uuids.last();
        let rest = rerank::others(init, center);
        let group = rerank::among(rest, connected, inside);
        let out = rerank::all_scored(group, score);
        let before = lemma_group(init, center, connected, inside, score);
        selection::lemma_selects_next(uuids, out, before, keep, keep, make);
        assert(rest.push(last).drop_last() =~= rest);
        assert(rerank::all_scored(group.push(last), score) =~= out.push((last, score)));
        if keep(uuids.len() - 1, last) {
            before.push(uuids.len() - 1)
        } else {
            before
        }
    }
}

/// Nodes by nearness: the center stands first, with a score of ten, where it is among the nodes.
/// Then come the nodes that are connected to it, each with a score of one, and then the others, each
/// with a score of zero; within each group every node that belongs to it is there, in order.
pub proof fn law_order_by_nearness(
    uuids: Seq<Seq<char>>,
    center: Seq<char>,
    connected: Set<Seq<char>>,
) -> (groups: (Seq<int>, Seq<int>))
    ensures
        ({
            let out = rerank::by_distance(uuids, center, connected);
            let head: int = if uuids.contains(center) { 1 } else { 0 };
            let near = groups.0.len() as int;
            let far = groups.1.len() as int;
            &&& out.len() == head + near + far
            &&& uuids.contains(center) ==> out[0] == (
                center,
                (Score { bits: 0x4024_0000_0000_0000 }),
            )
            &&& selection::selects(
                uuids,
                out.subrange(head, head + near),
                groups.0,
                |i: int, u: Seq<char>| u != center && connected.contains(u) == true,
                |u: Seq<char>| (u, (Score { bits: 0x3ff0_0000_0000_0000 })),
            )
            &&& selection::selects(
                uuids,
                out.subrange(head + near, head + near + far),
                groups.1,
                |i: int, u: Seq<char>| u != center && connected.contains(u) == false,
                |u: Seq<char>| (u, (Score { bits: 0 })),
            )
        }),
{
    let one = Score { bits: 0x3ff0_0000_0000_0000 };
    let zero = Score { bits: 0 };
    let near = lemma_group(uuids, center, connected, true, one);
    let far = lemma_group(uuids, center, connected, false, zero);
    let rest = rerank::others(uuids, center);
    let out = rerank::by_distance(uuids, center, connected);
    let head: int = if uuids.contains(center) { 1 } else { 0 };
    let a = rerank::all_scored(rerank::among(rest, connected, true), one);
    let b = rerank::all_scored(rerank::among(rest, connected, false), zero);
    assert(out.subrange(head, head + near.len()) =~= a);
    assert(out.subrange(head + near.len(), head + near.len() + far.len()) =~= b);
    (near, far)
}

/// An order by nearness loses no node, and each has its score: ten for the center, one for a node
/// that is connected to it, zero for any other.
pub proof fn law_nearness_loses_no_node(
    uuids: Seq<Seq<char>>,
    center: Seq<char>,
    connected: Set<Seq<char>>,
    u: Seq<char>,
)
    requires
        uuids.contains(u),
    ensures
        rerank::by_distance(uuids, center, connected).contains(
            (
                u,
                if u == center {
                    Score { bits: 0x4024_0000_0000_0000 }
                } else if connected.contains(u) {
                    Score { bits: 0x3ff0_0000_0000_0000 }
                } else {
                    Score { bits: 0 }
                },
            ),
        ),
{
    let out = rerank::by_distance(uuids, center, connected);
    let (near, far) = law_order_by_nearness(uuids, center, connected);
    let head: int = if uuids.contains(center) { 1 } else { 0 };
    let p = choose|p: int| 0 <= p < uuids.len() && uuids[p] == u;
    if u == center {
        assert(out[0].0 == u);
    } else if connected.contains(u) {
        let group = out.subrange(head, head + near.len());
        let k = choose|k: int| 0 <= k < near.len() && near[k] == p;
        assert(group[k] == out[head + k]);
        assert(out[head + k].0 == u);
    } else {
        let group = out.subrange(head + near.len(), head + near.len() + far.len());
        let k = choose|k: int| 0 <= k < far.len() && far[k] == p;
        assert(group[k] == out[head + near.len() + k]);
        assert(out[head + near.len() + k].0 == u);
    }
}

/// In an order by nearness no score is larger than one before it, every node has the score of its
/// nearness, and no node comes in that was not there.
pub proof fn law_nearer_nodes_come_first(
    uuids: Seq<Seq<char>>,
    center: Seq<char>,
    connected: Set<Seq<char>>,
    i: int,
    j: int,
)
    requires
        0 <= i < j < rerank::by_distance(uuids, center, connected).len(),
    ensures
        ({
            let out = rerank::by_distance(uuids, center, connected);
            &&& out[i].1.bits >= out[j].1.bits
            &&& uuids.contains(out[i].0) && uuids.contains(out[j].0)
            &&& out[j].0 != center
            &&& connected.contains(out[j].0) <==> out[j].1.bits == 0x3ff0_0000_0000_0000
            &&& !connected.contains(out[j].0) <==> out[j].1.bits == 0
            &&& out[i].0 != center && connected.contains(out[j].0) ==> connected.contains(out[i].0)
        }),
{
    let out = rerank::by_distance(uuids, center, connected);
    let (near, far) = law_order_by_nearness(uuids, center, connected);
    let head: int = if uuids.contains(center) { 1 } else { 0 };
    let first = out.subrange(head, head + near.len());
    let second = out.subrange(head + near.len(), head + near.len() + far.len());
    assert forall|k: int| head <= k < out.len() implies {
        &&& uuids.contains((#[trigger] out[k]).0)
        &&& out[k].0 != center
        &&& k < head + near.len() ==> connected.contains(out[k].0) && out[k].1.bits
            == 0x3ff0_0000_0000_0000
        &&& k >= head + near.len() ==> !connected.contains(out[k].0) && out[k].1.bits == 0
    } by {
        if k < head + near.len() {
            assert(first[k - head] == out[k]);
            assert(uuids[near[k - head]] == out[k].0);
        } else {
            let m = k - head - near.len();
            assert(second[m] == out[k]);
            assert(uuids[far[m]] == out[k].0);
        }
    }
}

/// The score of a node by its mentions is their number where it is known, and infinity where it is
/// not. The order by mentions has every node once with its score, by scores that never fall, and
/// nodes with equal scores in their order.
pub proof fn law_order_by_mentions(uuids: Seq<Seq<char>>, counts: Map<Seq<char>, u64>) -> (order: Seq<
    int,
>)
    requires
        uuids.len() <= usize::MAX,
    ensures
        ({
            let out = rerank::lowest_first(rerank::mention_scores(uuids, counts));
            &&& out.len() == uuids.len() == order.len()
            &&& forall|k: int| 0 <= k < uuids.len() ==> order.contains(k)
            &&& forall|i: int|
                #![trigger order[i]]
                #![trigger out[i]]
                0 <= i < out.len() ==> {
                    &&& 0 <= order[i] < uuids.len()
                    &&& out[i].0 == uuids[order[i]]
                    &&& counts.dom().contains(out[i].0) ==> out[i].1 == double::double_of(
                        counts[out[i].0] as nat,
                    )
                    &&& !counts.dom().contains(out[i].0) ==> out[i].1 == (Score {
                        bits: 0x7ff0_0000_0000_0000,
                    })
                }
            &&& forall|i: int, j: int|
                0 <= i < j < out.len() ==> (#[trigger] out[i]).1.rank() < (
                #[trigger] out[j]).1.rank() || (out[i].1.rank() == out[j].1.rank() && order[i]
                    < order[j])
        }),
{
    let pairs = rerank::mention_scores(uuids, counts);
    let keys = pairs.map_values(|p: (Seq<char>, Score)| p.1.rank());
    let order = sorting::law_sorted_items_are_ordered(pairs, keys);
    let out = rerank::lowest_first(pairs);
    assert forall|i: int, j: int| 0 <= i < j < out.len() implies (#[trigger] out[i]).1.rank() < (
    #[trigger] out[j]).1.rank() || (out[i].1.rank() == out[j].1.rank() && order[i] < order[j]) by {
        assert(keys[order[i]] == out[i].1.rank());
        assert(keys[order[j]] == out[j].1.rank());
    }
    order
}

/// Scored identifiers by falling scores: every one is there once, no score is larger than one before
/// it, and those with equal scores stand in their order.
pub proof fn law_best_come_first(pairs: Seq<(Seq<char>, Score)>) -> (order: Seq<int>)
    requires
        pairs.len() <= usize::MAX,
    ensures
        ({
            let out = rrf::best_first(pairs);
            &&& out.len() == pairs.len() == order.len()
            &&& forall|k: int| 0 <= k < pairs.len() ==> order.contains(k)
            &&& forall|i: int|
                #![trigger order[i]]
                #![trigger out[i]]
                0 <= i < out.len() ==> 0 <= order[i] < pairs.len() && out[i] == pairs[order[i]]
            &&& forall|i: int, j: int|
                0 <= i < j < out.len() ==> (#[trigger] out[i]).1.rank() > (
                #[trigger] out[j]).1.rank() || (out[i].1.rank() == out[j].1.rank() && order[i]
                    < order[j])
        }),
{
    let keys = rrf::falling_keys(pairs);
    let order = sorting::law_sorted_items_are_ordered(pairs, keys);
    let out = rrf::best_first(pairs);
    assert forall|i: int, j: int| 0 <= i < j < out.len() implies (#[trigger] out[i]).1.rank() > (
    #[trigger] out[j]).1.rank() || (out[i].1.rank() == out[j].1.rank() && order[i] < order[j]) by {
        assert(keys[order[i]] == -out[i].1.rank());
        assert(keys[order[j]] == -out[j].1.rank());
    }
    order
}

/// Facts by mentions: every fact is there once, none has more episodes than one before it, and those
/// with equally many stand in their order.
pub proof fn law_most_mentioned_come_first(edges: Seq<EntityEdgeView>) -> (order: Seq<int>)
    requires
        edges.len() <= usize::MAX,
    ensures
        ({
            let out = edge_search::most_mentioned(edges);
            &&& out.len() == edges.len() == order.len()
            &&& forall|k: int| 0 <= k < edges.len() ==> order.contains(k)
            &&& forall|i: int|
                #![trigger order[i]]
                #![trigger out[i]]
                0 <= i < out.len() ==> 0 <= order[i] < edges.len() && out[i] == edges[order[i]]
            &&& forall|i: int, j: int|
                0 <= i < j < out.len() ==> (#[trigger] out[i]).episodes.len() > (
                #[trigger] out[j]).episodes.len() || (out[i].episodes.len() == out[j].episodes.len()
                    && order[i] < order[j])
        }),
{
    let keys = edge_search::episode_keys(edges);
    let order = sorting::law_sorted_items_are_ordered(edges, keys);
    let out = edge_search::most_mentioned(edges);
    assert forall|i: int, j: int| 0 <= i < j < out.len() implies (#[trigger] out[i]).episodes.len()
        > (#[trigger] out[j]).episodes.len() || (out[i].episodes.len() == out[j].episodes.len()
        && order[i] < order[j]) by {
        assert(keys[order[i]] == -(out[i].episodes.len() as int));
        assert(keys[order[j]] == -(out[j].episodes.len() as int));
    }
    order
}

/// Holds where a ranking has an identifier at a position and nowhere else.
pub open spec fn ranked_once_at(list: Seq<Seq<char>>, uuid: Seq<char>, i: int) -> bool {
    &&& 0 <= i < list.len()
    &&& list[i] == uuid
    &&& forall|j: int| 0 <= j < list.len() && j != i ==> #[trigger] list[j] != uuid
}

/// What another ranking does to a score: an identifier at position `i` gains one over the position
/// and the constant, and an identifier that is not in the ranking gains nothing. Before the first
/// ranking every score is zero.
pub proof fn law_ranking_adds_its_share(
    lists: Seq<Seq<Seq<char>>>,
    list: Seq<Seq<char>>,
    rank_const: nat,
    uuid: Seq<char>,
    i: int,
)
    ensures
        ranked_once_at(list, uuid, i) ==> rrf::fused_score(
            rrf::all_ranks(lists.push(list), rank_const),
            uuid,
        ) == double::sum(
            rrf::fused_score(rrf::all_ranks(lists, rank_const), uuid),
            double::reciprocal(double::double_of((i + rank_const) as nat)),
        ),
        !list.contains(uuid) ==> rrf::fused_score(
            rrf::all_ranks(lists.push(list), rank_const),
            uuid,
        ) == rrf::fused_score(rrf::all_ranks(lists, rank_const), uuid),
        rrf::fused_score(rrf::all_ranks(Seq::empty(), rank_const), uuid) == (Score { bits: 0 }),
{
    let before = rrf::all_ranks(lists, rank_const);
    let more = rrf::ranks(list, rank_const);
    assert(lists.push(list).drop_last() =~= lists);
    assert(rrf::all_ranks(lists.push(list), rank_const) == before + more);
    if !list.contains(uuid) {
        assert forall|j: int| 0 <= j < more.len() implies (#[trigger] more[j]).0 != uuid by {
            assert(list[j] != uuid);
        }
        lemma_score_without(before, more, uuid);
    }
    if ranked_once_at(list, uuid, i) {
        let upto = more.take(i);
        let after = more.skip(i + 1);
        assert forall|j: int| 0 <= j < upto.len() implies (#[trigger] upto[j]).0 != uuid by {
            assert(list[j] != uuid);
        }
        assert forall|j: int| 0 <= j < after.len() implies (#[trigger] after[j]).0 != uuid by {
            assert(list[i + 1 + j] != uuid);
        }
        lemma_score_without(before, upto, uuid);
        let with = (before + upto).push(more[i]);
        assert(with.drop_last() =~= before + upto);
        lemma_score_without(with, after, uuid);
        assert(with + after =~= before + more);
        assert(more[i] == (uuid, (i + rank_const) as nat));
    }
    assert(rrf::all_ranks(Seq::empty(), rank_const) =~= Seq::empty());
}

proof fn lemma_score_without(
    entries: Seq<(Seq<char>, nat)>,
    more: Seq<(Seq<char>, nat)>,
    uuid: Seq<char>,
)
    requires
        forall|j: int| 0 <= j < more.len() ==> (#[trigger] more[j]).0 != uuid,
    ensures
        rrf::fused_score(entries + more, uuid) == rrf::fused_score(entries, uuid),
    decreases more.len(),
{
    if more.len() == 0 {
        assert(entries + more =~= entries);
    } else {
        let init = more.drop_last();
        assert((entries + more).drop_last() =~= entries + init);
        assert((entries + more).last() == more[more.len() - 1]);
        assert forall|j: int| 0 <= j < init.len() implies (#[trigger] init[j]).0 != uuid by {
            assert(init[j] == more[j]);
        }
        lemma_score_without(entries, init, uuid);
    }
}

/// A fusion has every identifier of every ranking whose score is high enough, with that score, and
/// no other; each once, and larger scores first.
pub proof fn law_fusion_ranks_everything(
    lists: Seq<Seq<Seq<char>>>,
    rank_const: nat,
    min: Score,
    l: int,
    i: int,
)
    requires
        rrf::fused(rrf::all_ranks(lists, rank_const)).len() <= usize::MAX,
    ensures
        ({
            let out = rrf::fusion(lists, rank_const, min);
            let entries = rrf::all_ranks(lists, rank_const);
            &&& 0 <= l < lists.len() && 0 <= i < lists[l].len() && rrf::fused_score(
                entries,
                lists[l][i],
            ).at_least(min) ==> out.contains(
                (lists[l][i], rrf::fused_score(entries, lists[l][i])),
            )
            &&& forall|k: int|
                0 <= k < out.len() ==> {
                    &&& (#[trigger] out[k]).1 == rrf::fused_score(entries, out[k].0)
                    &&& out[k].1.at_least(min)
                    &&& exists|m: int|
                        0 <= m < lists.len() && (#[trigger] lists[m]).contains(out[k].0)
                }
            &&& forall|j: int, k: int|
                0 <= j < k < out.len() ==> (#[trigger] out[j]).0 != (#[trigger] out[k]).0
                    && out[j].1.at_least(out[k].1)
        }),
{
    let out = rrf::fusion(lists, rank_const, min);
    let entries = rrf::all_ranks(lists, rank_const);
    if 0 <= l < lists.len() && 0 <= i < lists[l].len() && rrf::fused_score(
        entries,
        lists[l][i],
    ).at_least(min) {
        let p = lemma_rank_at(lists, rank_const, l, i);
        assert(rrf::ranked_uuids(entries)[p] == lists[l][i]);
        rrf::law_fusion_loses_no_result(lists, rank_const, min, lists[l][i]);
    }
    assert forall|k: int| 0 <= k < out.len() implies {
        &&& (#[trigger] out[k]).1 == rrf::fused_score(entries, out[k].0)
        &&& out[k].1.at_least(min)
        &&& exists|m: int| 0 <= m < lists.len() && (#[trigger] lists[m]).contains(out[k].0)
    } by {
        rrf::law_fusion_has_each_result_once(lists, rank_const, min, k);
        let ids = rrf::ranked_uuids(entries);
        let p = choose|p: int| 0 <= p < ids.len() && ids[p] == out[k].0;
        let m = lemma_rank_of(lists, rank_const, p);
        assert(lists[m].contains(out[k].0));
    }
    assert forall|j: int, k: int| 0 <= j < k < out.len() implies (#[trigger] out[j]).0 != (
    #[trigger] out[k]).0 && out[j].1.at_least(out[k].1) by {
        rrf::law_fusion_has_each_result_once(lists, rank_const, min, k);
    }
}

proof fn lemma_rank_at(lists: Seq<Seq<Seq<char>>>, rank_const: nat, l: int, i: int) -> (p: int)
    requires
        0 <= l < lists.len(),
        0 <= i < lists[l].len(),
    ensures
        0 <= p < rrf::all_ranks(lists, rank_const).len(),
        rrf::all_ranks(lists, rank_const)[p] == (lists[l][i], (i + rank_const) as nat),
    decreases lists.len(),
{
    let init = lists.drop_last();
    let before = rrf::all_ranks(init, rank_const);
    if l == lists.len() - 1 {
        before.len() + i
    } else {
        assert(init[l] == lists[l]);
        lemma_rank_at(init, rank_const, l, i)
    }
}

proof fn lemma_rank_of(lists: Seq<Seq<Seq<char>>>, rank_const: nat, p: int) -> (m: int)
    requires
        0 <= p < rrf::all_ranks(lists, rank_const).len(),
    ensures
        0 <= m < lists.len(),
        lists[m].contains(rrf::all_ranks(lists, rank_const)[p].0),
    decreases lists.len(),
{
    let init = lists.drop_last();
    let before = rrf::all_ranks(init, rank_const);
    if p < before.len() {
        let m = lemma_rank_of(init, rank_const, p);
        assert(init[m] == lists[m]);
        m
    } else {
        assert(lists.last()[p - before.len()] == rrf::all_ranks(lists, rank_const)[p].0);
        lists.len() - 1
    }
}

/// Lists are strung together: what stands in a list stands in the whole, and nothing else does.
pub proof fn law_lists_are_strung_together<V>(lists: Seq<Seq<V>>, x: V)
    ensures
        found::in_order(lists).contains(x) <==> exists|l: int|
            0 <= l < lists.len() && (#[trigger] lists[l]).contains(x),
    decreases lists.len(),
{
    if lists.len() > 0 {
        let init = lists.drop_last();
        let before = found::in_order(init);
        let all = found::in_order(lists);
        law_lists_are_strung_together(init, x);
        assert(lists[lists.len() - 1] == lists.last());
        if all.contains(x) {
            let k = choose|k: int| 0 <= k < all.len() && all[k] == x;
            if k < before.len() {
                assert(before[k] == x);
                let l = choose|l: int| 0 <= l < init.len() && (#[trigger] init[l]).contains(x);
                assert(lists[l] == init[l]);
            } else {
                assert(lists.last()[k - before.len()] == x);
            }
        }
        if exists|l: int| 0 <= l < lists.len() && (#[trigger] lists[l]).contains(x) {
            let l = choose|l: int| 0 <= l < lists.len() && (#[trigger] lists[l]).contains(x);
            if l < init.len() {
                assert(init[l] == lists[l]);
                let k = choose|k: int| 0 <= k < before.len() && before[k] == x;
                assert(all[k] == x);
            } else {
                let k = choose|k: int| 0 <= k < lists.last().len() && lists.last()[k] == x;
                assert(all[before.len() + k] == x);
            }
        }
    }
}

/// Holds where the thing at a position is the last one with an identifier.
pub open spec fn is_last_with<T: Found>(items: Seq<T::V>, uuid: Seq<char>, i: int) -> bool {
    &&& 0 <= i < items.len()
    &&& T::id(items[i]) == uuid
    &&& forall|j: int| i < j < items.len() ==> T::id(#[trigger] items[j]) != uuid
}

/// A thing is found by its identifier: the last one that has it; none where none has it.
pub proof fn law_thing_is_found_by_identifier<T: Found>(items: Seq<T::V>, uuid: Seq<char>, i: int)
    ensures
        is_last_with::<T>(items, uuid, i) ==> found::last_with::<T>(items, uuid) == Some(items[i]),
        (forall|j: int| 0 <= j < items.len() ==> T::id(#[trigger] items[j]) != uuid)
            ==> found::last_with::<T>(items, uuid) is None,
        0 <= i < items.len() && T::id(items[i]) == uuid ==> (found::last_with::<T>(items, uuid)
            matches Some(v) && T::id(v) == uuid && items.contains(v)),
    decreases items.len(),
{
    if items.len() > 0 {
        let init = items.drop_last();
        law_thing_is_found_by_identifier::<T>(init, uuid, i);
        assert(items[items.len() - 1] == items.last());
        if is_last_with::<T>(items, uuid, i) && i < init.len() {
            assert(T::id(items[items.len() - 1]) != uuid);
            assert forall|j: int| i < j < init.len() implies T::id(#[trigger] init[j]) != uuid by {
                assert(init[j] == items[j]);
            }
        }
        if forall|j: int| 0 <= j < items.len() ==> T::id(#[trigger] items[j]) != uuid {
            assert forall|j: int| 0 <= j < init.len() implies T::id(#[trigger] init[j]) != uuid by {
                assert(init[j] == items[j]);
            }
        }
        if 0 <= i < init.len() && T::id(items[i]) == uuid && T::id(items.last()) != uuid {
            assert(init[i] == items[i]);
            let v = found::last_with::<T>(init, uuid)->0;
            let k = choose|k: int| 0 <= k < init.len() && init[k] == v;
            assert(items[k] == v);
        }
    }
}

/// Things are picked by identifiers in the order of these: where every identifier is that of some
/// thing, as many come out as there are identifiers, and the one at a position goes by the
/// identifier at that position and is one of the things.
pub proof fn law_things_are_picked_in_order<T: Found>(items: Seq<T::V>, uuids: Seq<Seq<char>>)
    requires
        forall|i: int|
            0 <= i < uuids.len() ==> found::ids::<T>(items).contains(#[trigger] uuids[i]),
    ensures
        found::picked::<T>(items, uuids).len() == uuids.len(),
        forall|i: int|
            0 <= i < uuids.len() ==> {
                &&& T::id(#[trigger] found::picked::<T>(items, uuids)[i]) == uuids[i]
                &&& items.contains(found::picked::<T>(items, uuids)[i])
            },
    decreases uuids.len(),
{
    if uuids.len() > 0 {
        let init = uuids.drop_last();
        let ids = found::ids::<T>(items);
        assert forall|i: int| 0 <= i < init.len() implies ids.contains(#[trigger] init[i]) by {
            assert(init[i] == uuids[i]);
        }
        law_things_are_picked_in_order::<T>(items, init);
        assert(ids.contains(uuids[uuids.len() - 1]));
        let p = choose|p: int| 0 <= p < ids.len() && ids[p] == uuids.last();
        law_thing_is_found_by_identifier::<T>(items, uuids.last(), p);
        let before = found::picked::<T>(items, init);
        let out = found::picked::<T>(items, uuids);
        assert forall|i: int| 0 <= i < uuids.len() implies T::id(#[trigger] out[i]) == uuids[i]
            && items.contains(out[i]) by {
            if i < init.len() {
                assert(out[i] == before[i]);
                assert(init[i] == uuids[i]);
            }
        }
    }
}

/// The results of an order: the first of the ordered identifiers, as many as are wanted, each with
/// the thing that goes by it and with its score.
pub proof fn law_hits_follow_the_order<T: Found>(
    all: Seq<T::V>,
    order: Seq<(Seq<char>, Score)>,
    limit: nat,
)
    requires
        forall|i: int|
            0 <= i < order.len() ==> found::ids::<T>(all).contains((#[trigger] order[i]).0),
    ensures
        ({
            let r = step::ordered_hits::<T>(all, order, limit);
            let n = if order.len() <= limit {
                order.len()
            } else {
                limit
            };
            &&& r.items.len() == n
            &&& r.scores.len() == n
            &&& forall|i: int|
                0 <= i < n ==> {
                    &&& T::id(#[trigger] r.items[i]) == order[i].0
                    &&& all.contains(r.items[i])
                    &&& r.scores[i] == order[i].1
                }
        }),
{
    let uuids = found::scored_uuids(order);
    assert forall|i: int| 0 <= i < uuids.len() implies found::ids::<T>(all).contains(
        #[trigger] uuids[i],
    ) by {
        assert(uuids[i] == order[i].0);
    }
    law_things_are_picked_in_order::<T>(all, uuids);
    let picked = found::picked::<T>(all, uuids);
    let r = step::ordered_hits::<T>(all, order, limit);
    assert forall|i: int| 0 <= i < r.items.len() implies T::id(#[trigger] r.items[i]) == order[i].0
        && all.contains(r.items[i]) && r.scores[i] == order[i].1 by {
        assert(r.items[i] == picked[i]);
        assert(uuids[i] == order[i].0);
        assert(found::scored_scores(order)[i] == order[i].1);
    }
}

/// At most as many as are wanted are left: the first ones, as they are.
pub proof fn law_limit_leaves_the_first<V>(items: Seq<V>, limit: nat)
    ensures
        found::limited(items, limit).len() == if items.len() <= limit {
            items.len()
        } else {
            limit
        },
        forall|i: int|
            0 <= i < found::limited(items, limit).len() ==> #[trigger] found::limited(
                items,
                limit,
            )[i] == items[i],
{
}

/// Holds where the thing at a position is the last one with a passage.
pub open spec fn is_last_saying<T: Found>(items: Seq<T::V>, text: Seq<char>, i: int) -> bool {
    &&& 0 <= i < items.len()
    &&& T::passage(items[i]) == text
    &&& forall|j: int| i < j < items.len() ==> T::passage(#[trigger] items[j]) != text
}

proof fn lemma_last_saying<T: Found>(items: Seq<T::V>, text: Seq<char>, i: int)
    ensures
        is_last_saying::<T>(items, text, i) ==> found::last_saying::<T>(items, text) == Some(
            items[i],
        ),
        (forall|j: int| 0 <= j < items.len() ==> T::passage(#[trigger] items[j]) != text)
            ==> found::last_saying::<T>(items, text) is None,
    decreases items.len(),
{
    if items.len() > 0 {
        let init = items.drop_last();
        lemma_last_saying::<T>(init, text, i);
        assert(items[items.len() - 1] == items.last());
        if is_last_saying::<T>(items, text, i) && i < init.len() {
            assert(T::passage(items[items.len() - 1]) != text);
            assert forall|j: int| i < j < init.len() implies T::passage(#[trigger] init[j])
                != text by {
                assert(init[j] == items[j]);
            }
        }
        if forall|j: int| 0 <= j < items.len() ==> T::passage(#[trigger] items[j]) != text {
            assert forall|j: int| 0 <= j < init.len() implies T::passage(#[trigger] init[j])
                != text by {
                assert(init[j] == items[j]);
            }
        }
    }
}

/// A model's score for a passage goes to the thing that says it, where it is high enough: a scored
/// passage that the thing at a position is the last to say gives that thing's identifier the score.
pub proof fn law_scores_go_to_what_was_scored<T: Found>(
    items: Seq<T::V>,
    ranked: Seq<(Seq<char>, Score)>,
    min: Score,
    k: int,
    i: int,
)
    requires
        0 <= k < ranked.len(),
        is_last_saying::<T>(items, ranked[k].0, i),
        ranked[k].1.at_least(min),
    ensures
        found::scored_passages::<T>(items, ranked, min).contains((T::id(items[i]), ranked[k].1)),
    decreases ranked.len(),
{
    let init = ranked.drop_last();
    let before = found::scored_passages::<T>(items, init, min);
    let out = found::scored_passages::<T>(items, ranked, min);
    lemma_last_saying::<T>(items, ranked[k].0, i);
    if k < init.len() {
        assert(init[k] == ranked[k]);
        law_scores_go_to_what_was_scored::<T>(items, init, min, k, i);
        let m = choose|m: int| 0 <= m < before.len() && before[m] == (T::id(items[i]), ranked[k].1);
        assert(out[m] == before[m]);
    } else {
        assert(out[out.len() - 1] == (T::id(items[i]), ranked[k].1));
    }
}

/// What a model's scores give is at least the least score, in the order in which the model put the
/// passages, each for a thing that says a scored passage.
pub proof fn law_scored_things_say_what_was_scored<T: Found>(
    items: Seq<T::V>,
    ranked: Seq<(Seq<char>, Score)>,
    min: Score,
) -> (at: Seq<int>)
    ensures
        ({
            let out = found::scored_passages::<T>(items, ranked, min);
            &&& at.len() == out.len()
            &&& selection::increasing(at)
            &&& forall|m: int|
                #![trigger at[m]]
                #![trigger out[m]]
                0 <= m < out.len() ==> {
                    &&& 0 <= at[m] < ranked.len()
                    &&& out[m].1 == ranked[at[m]].1
                    &&& out[m].1.at_least(min)
                    &&& exists|i: int|
                        0 <= i < items.len() && T::passage(#[trigger] items[i]) == ranked[at[m]].0
                            && T::id(items[i]) == out[m].0
                }
        }),
    decreases ranked.len(),
{
    if ranked.len() == 0 {
        Seq::empty()
    } else {
        let init = ranked.drop_last();
        let at = law_scored_things_say_what_was_scored::<T>(items, init, min);
        let before = found::scored_passages::<T>(items, init, min);
        let out = found::scored_passages::<T>(items, ranked, min);
        let last = ranked.last();
        let n = ranked.len() - 1;
        match found::last_saying::<T>(items, last.0) {
            Some(v) => if last.1.at_least(min) {
                let i = lemma_saying_at::<T>(items, last.0);
                let more = at.push(n);
                assert forall|m: int|
                    #![trigger more[m]]
                    #![trigger out[m]]
                    0 <= m < out.len() implies {
                    &&& 0 <= more[m] < ranked.len()
                    &&& out[m].1 == ranked[more[m]].1
                    &&& out[m].1.at_least(min)
                    &&& exists|i: int|
                        0 <= i < items.len() && T::passage(#[trigger] items[i])
                            == ranked[more[m]].0 && T::id(items[i]) == out[m].0
                } by {
                    if m < before.len() {
                        assert(more[m] == at[m] && out[m] == before[m]);
                        assert(init[at[m]] == ranked[at[m]]);
                    } else {
                        assert(T::passage(items[i]) == last.0);
                    }
                }
                assert forall|i: int, j: int| 0 <= i < j < more.len() implies #[trigger] more[i]
                    < #[trigger] more[j] by {
                    assert(more[i] == at[i]);
                    if j < at.len() {
                        assert(more[j] == at[j]);
                    }
                }
                more
            } else {
                at
            },
            None => at,
        }
    }
}

proof fn lemma_saying_at<T: Found>(items: Seq<T::V>, text: Seq<char>) -> (i: int)
    requires
        found::last_saying::<T>(items, text) is Some,
    ensures
        0 <= i < items.len(),
        T::passage(items[i]) == text,
        found::last_saying::<T>(items, text) == Some(items[i]),
    decreases items.len(),
{
    if T::passage(items.last()) == text {
        items.len() - 1
    } else {
        lemma_saying_at::<T>(items.drop_last(), text)
    }
}

/// The facts with a source are all the facts that lead from it, as they are and in order.
pub proof fn law_facts_are_grouped_by_source(edges: Seq<EntityEdgeView>, source: Seq<char>) -> (at: Seq<
    int,
>)
    ensures
        selection::selects(
            edges,
            edge_search::edges_from(edges, source),
            at,
            |i: int, e: EntityEdgeView| e.source_node_uuid == source,
            |e: EntityEdgeView| e,
        ),
    decreases edges.len(),
{
    let keep = |i: int, e: EntityEdgeView| e.source_node_uuid == source;
    let make = |e: EntityEdgeView| e;
    if edges.len() == 0 {
        Seq::empty()
    } else {
        let init = edges.drop_last();
        let before = law_facts_are_grouped_by_source(init, source);
        selection::lemma_selects_next(
            edges,
            edge_search::edges_from(init, source),
            before,
            keep,
            keep,
            make,
        );
        if keep(edges.len() - 1, edges.last()) {
            before.push(edges.len() - 1)
        } else {
            before
        }
    }
}

/// Facts in the order of their sources: every fact that leads from one of the nodes comes in, and
/// no other; what leads from an earlier node stands earlier.
pub proof fn law_grouping_loses_no_fact(
    edges: Seq<EntityEdgeView>,
    nodes: Seq<Seq<char>>,
    e: EntityEdgeView,
)
    ensures
        edge_search::grouped_edges(edges, nodes).contains(e) <==> edges.contains(e)
            && nodes.contains(e.source_node_uuid),
        nodes.len() > 0 ==> edge_search::grouped_edges(edges, nodes) == edge_search::grouped_edges(
            edges,
            nodes.drop_last(),
        ) + edge_search::edges_from(edges, nodes.last()),
    decreases nodes.len(),
{
    if nodes.len() > 0 {
        let init = nodes.drop_last();
        let before = edge_search::grouped_edges(edges, init);
        let last = edge_search::edges_from(edges, nodes.last());
        let all = edge_search::grouped_edges(edges, nodes);
        law_grouping_loses_no_fact(edges, init, e);
        let at = law_facts_are_grouped_by_source(edges, nodes.last());
        assert(nodes[nodes.len() - 1] == nodes.last());
        if all.contains(e) {
            let k = choose|k: int| 0 <= k < all.len() && all[k] == e;
            if k < before.len() {
                assert(before[k] == e);
                let m = choose|m: int| 0 <= m < init.len() && init[m] == e.source_node_uuid;
                assert(nodes[m] == e.source_node_uuid);
            } else {
                assert(last[k - before.len()] == e);
                assert(edges[at[k - before.len()]] == e);
            }
        }
        if edges.contains(e) && nodes.contains(e.source_node_uuid) {
            let m = choose|m: int| 0 <= m < nodes.len() && nodes[m] == e.source_node_uuid;
            if m < init.len() {
                assert(init[m] == e.source_node_uuid);
                let k = choose|k: int| 0 <= k < before.len() && before[k] == e;
                assert(all[k] == e);
            } else {
                let p = choose|p: int| 0 <= p < edges.len() && edges[p] == e;
                let k = choose|k: int| 0 <= k < at.len() && at[k] == p;
                assert(last[k] == e);
                assert(all[before.len() + k] == e);
            }
        }
    }
}

/// The methods that a plan has run one after the other: by words, by similarity, the walk from the
/// given nodes, the walk from what was found. Each looks for twice as many as are wanted, and after
/// them nothing is left.
pub proof fn law_methods_run_in_turn(
    plan: SearchPlan,
    done: nat,
    given: Seq<Seq<char>>,
    found: Seq<Seq<char>>,
    sim_min_score: u32,
    max_depth: usize,
    limit: nat,
)
    ensures
        ({
            let words: int = if plan.bm25 { 1 } else { 0 };
            let similar: int = if plan.cosine { 1 } else { 0 };
            let walk: int = if plan.bfs { 1 } else { 0 };
            let seed: int = if plan.self_seed { 1 } else { 0 };
            let call = step::next_call(
                plan,
                done,
                given,
                found,
                sim_min_score,
                max_depth,
                limit,
            );
            &&& plan.bm25 && done == 0 ==> call == Some(
                SearchCallView::Fulltext { limit: 2 * limit as int },
            )
            &&& plan.cosine && done == words ==> call == Some(
                SearchCallView::Similarity { limit: 2 * limit as int, min_score: sim_min_score },
            )
            &&& plan.bfs && done == words + similar ==> call == Some(
                SearchCallView::Walk { origins: given, max_depth, limit: 2 * limit as int },
            )
            &&& plan.self_seed && done == words + similar + walk ==> call == Some(
                SearchCallView::Walk { origins: found, max_depth, limit: 2 * limit as int },
            )
            &&& done >= words + similar + walk + seed ==> call is None
        }),
{
}

/// A search runs the methods that its configuration lists. It walks the graph once more from what
/// was found exactly where it walks and no nodes to start from were given.
pub proof fn law_configured_methods_are_run(
    edge_methods: Seq<EdgeSearchMethod>,
    node_methods: Seq<NodeSearchMethod>,
    has_origins: bool,
)
    ensures
        ({
            let e = edge_search::edge_plan(edge_methods, has_origins);
            let n = node_search::node_plan(node_methods, has_origins);
            &&& e.bm25 <==> exists|i: int|
                0 <= i < edge_methods.len() && #[trigger] edge_methods[i] == EdgeSearchMethod::Bm25
            &&& e.cosine <==> exists|i: int|
                0 <= i < edge_methods.len() && #[trigger] edge_methods[i]
                    == EdgeSearchMethod::CosineSimilarity
            &&& e.bfs <==> exists|i: int|
                0 <= i < edge_methods.len() && #[trigger] edge_methods[i]
                    == EdgeSearchMethod::BreadthFirstSearch
            &&& e.self_seed <==> e.bfs && !has_origins
            &&& n.bm25 <==> exists|i: int|
                0 <= i < node_methods.len() && #[trigger] node_methods[i] == NodeSearchMethod::Bm25
            &&& n.cosine <==> exists|i: int|
                0 <= i < node_methods.len() && #[trigger] node_methods[i]
                    == NodeSearchMethod::CosineSimilarity
            &&& n.bfs <==> exists|i: int|
                0 <= i < node_methods.len() && #[trigger] node_methods[i]
                    == NodeSearchMethod::BreadthFirstSearch
            &&& n.self_seed <==> n.bfs && !has_origins
        }),
{
}

/// A single nameless group limits a search to no group; any other groups stay as they are.
pub proof fn law_nameless_group_is_no_limit(group_ids: Seq<Seq<char>>)
    ensures
        group_ids.len() == 1 && group_ids[0].len() == 0 ==> query::group_filter(group_ids).len()
            == 0,
        group_ids.len() != 1 || group_ids[0].len() > 0 ==> query::group_filter(group_ids)
            == group_ids,
{
}

} // verus!
