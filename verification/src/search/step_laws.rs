//! What the steps of a search promise of the lists that its methods found.
use crate::pipeline::dedup_index;
use crate::score::Score;
use crate::search::community_search;
use crate::search::config::{
    CommunityReranker, CommunitySearchMethod, EdgeReranker, EdgeSearchMethod, EpisodeReranker,
    NodeReranker, NodeSearchMethod, ScopeView,
};
use crate::search::edge_search;
use crate::search::episode_search;
use crate::search::found::{self, Found};
use crate::search::laws;
use crate::search::node_search;
use crate::search::rerank;
use crate::search::rrf;
use crate::search::step::{self, HitsView, RerankStepView};
use crate::selection;
use crate::types::community::CommunityNode;
use crate::types::edge::EntityEdge;
use crate::types::episode::{EpisodicNode, EpisodicNodeView};
use crate::types::node::EntityNode;
use vstd::prelude::*;

verus! {

/// Holds where a method found a thing: the list at `l` has it at `i`.
pub open spec fn found_at<T: Found>(lists: Seq<Vec<T>>, l: int, i: int, v: T::V) -> bool {
    0 <= l < lists.len() && 0 <= i < lists[l]@.len() && lists[l]@[i]@ == v
}

/// Holds where a method found a thing.
pub open spec fn was_found<T: Found>(lists: Seq<Vec<T>>, v: T::V) -> bool {
    exists|l: int, i: int| found_at(lists, l, i, v)
}

/// What a search has to order is what its methods found, and nothing else.
pub proof fn law_everything_found_is_ordered<T: Found>(lists: Seq<Vec<T>>, v: T::V)
    ensures
        step::all_items(lists).contains(v) <==> exists|l: int, i: int| found_at(lists, l, i, v),
{
    let views = found::list_views(lists);
    laws::law_lists_are_strung_together(views, v);
    if step::all_items(lists).contains(v) {
        let l = choose|l: int| 0 <= l < views.len() && (#[trigger] views[l]).contains(v);
        let i = choose|i: int| 0 <= i < views[l].len() && views[l][i] == v;
        assert(views[l] == found::item_views(lists[l]@));
        assert(found_at(lists, l, i, v));
    }
    if exists|l: int, i: int| found_at(lists, l, i, v) {
        let (l, i) = choose|l: int, i: int| found_at(lists, l, i, v);
        assert(views[l] == found::item_views(lists[l]@));
        assert(views[l][i] == v);
        assert(views[l].contains(v));
    }
}

/// What another method found comes behind what those before it found, in its order.
pub proof fn law_later_methods_come_behind<T: Found>(lists: Seq<Vec<T>>, list: Vec<T>, i: int)
    ensures
        step::all_items(Seq::<Vec<T>>::empty()).len() == 0,
        step::all_items(lists.push(list)).len() == step::all_items(lists).len() + list@.len(),
        0 <= i < step::all_items(lists).len() ==> step::all_items(lists.push(list))[i]
            == step::all_items(lists)[i],
        0 <= i < list@.len() ==> step::all_items(lists.push(list))[step::all_items(lists).len() + i]
            == list@[i]@,
{
    let views = found::list_views(lists.push(list));
    assert(views.drop_last() =~= found::list_views(lists));
    assert(views.last() == found::item_views(list@));
}

/// The score that fusing gives an identifier.
pub open spec fn score_among<T: Found>(lists: Seq<Vec<T>>, uuid: Seq<char>) -> Score {
    rrf::fused_score(rrf::all_ranks(found::id_lists::<T>(found::list_views(lists)), 1), uuid)
}

/// Holds where a list has an identifier at one position only.
pub open spec fn listed_once_at<T: Found>(list: Vec<T>, uuid: Seq<char>, i: int) -> bool {
    &&& 0 <= i < list@.len()
    &&& T::id(list@[i]@) == uuid
    &&& forall|j: int| 0 <= j < list@.len() && j != i ==> T::id((#[trigger] list@[j])@) != uuid
}

/// The first thing of a list gains one from it, the second a half, the third a third, and so on;
/// what is not in it gains nothing. Without any list a score is zero.
pub proof fn law_place_in_a_list_is_worth_its_reciprocal<T: Found>(
    lists: Seq<Vec<T>>,
    list: Vec<T>,
    uuid: Seq<char>,
    i: int,
)
    ensures
        listed_once_at(list, uuid, i) ==> score_among(lists.push(list), uuid) == crate::double::sum(
            score_among(lists, uuid),
            crate::double::reciprocal(crate::double::double_of((i + 1) as nat)),
        ),
        (forall|j: int| 0 <= j < list@.len() ==> T::id((#[trigger] list@[j])@) != uuid)
            ==> score_among(lists.push(list), uuid) == score_among(lists, uuid),
        score_among(Seq::<Vec<T>>::empty(), uuid) == (Score { bits: 0 }),
{
    let before = found::id_lists::<T>(found::list_views(lists));
    let all = found::id_lists::<T>(found::list_views(lists.push(list)));
    let more = found::ids::<T>(found::item_views(list@));
    assert(all =~= before.push(more));
    laws::law_ranking_adds_its_share(before, more, 1, uuid, i);
    if listed_once_at(list, uuid, i) {
        assert forall|j: int| 0 <= j < more.len() && j != i implies #[trigger] more[j] != uuid by {
            assert(T::id(list@[j]@) != uuid);
        }
        assert(more[i] == uuid);
        assert(laws::ranked_once_at(more, uuid, i));
    }
    if forall|j: int| 0 <= j < list@.len() ==> T::id((#[trigger] list@[j])@) != uuid {
        assert forall|j: int| 0 <= j < more.len() implies #[trigger] more[j] != uuid by {
            assert(T::id(list@[j]@) != uuid);
        }
    }
    assert(found::id_lists::<T>(found::list_views(Seq::<Vec<T>>::empty())) =~= Seq::empty());
}

/// Holds where what was found can be counted.
pub open spec fn can_fuse<T: Found>(lists: Seq<Vec<T>>) -> bool {
    rrf::fused(
        rrf::all_ranks(found::id_lists::<T>(found::list_views(lists)), 1),
    ).len() <= usize::MAX
}

/// Fused lists have every identifier that was found and whose score is high enough, once and with
/// its score, larger scores first, and nothing else.
pub proof fn law_fused_lists_have_what_was_found<T: Found>(
    lists: Seq<Vec<T>>,
    min: Score,
    l: int,
    i: int,
)
    requires
        can_fuse(lists),
    ensures
        ({
            let out = step::fused_lists::<T>(lists, min);
            &&& 0 <= l < lists.len() && 0 <= i < lists[l]@.len() && score_among(
                lists,
                T::id(lists[l]@[i]@),
            ).at_least(min) ==> out.contains(
                (T::id(lists[l]@[i]@), score_among(lists, T::id(lists[l]@[i]@))),
            )
            &&& forall|k: int|
                0 <= k < out.len() ==> {
                    &&& (#[trigger] out[k]).1 == score_among(lists, out[k].0)
                    &&& out[k].1.at_least(min)
                    &&& found::ids::<T>(step::all_items(lists)).contains(out[k].0)
                }
            &&& forall|j: int, k: int|
                0 <= j < k < out.len() ==> (#[trigger] out[j]).0 != (#[trigger] out[k]).0
                    && out[j].1.at_least(out[k].1)
        }),
{
    let ids = found::id_lists::<T>(found::list_views(lists));
    let out = step::fused_lists::<T>(lists, min);
    laws::law_fusion_ranks_everything(ids, 1, min, l, i);
    if 0 <= l < lists.len() && 0 <= i < lists[l]@.len() {
        assert(ids[l] == found::ids::<T>(found::item_views(lists[l]@)));
        assert(ids[l][i] == T::id(lists[l]@[i]@));
    }
    assert forall|k: int| 0 <= k < out.len() implies found::ids::<T>(
        step::all_items(lists),
    ).contains((#[trigger] out[k]).0) by {
        let m = choose|m: int| 0 <= m < ids.len() && (#[trigger] ids[m]).contains(out[k].0);
        assert(ids[m] == found::ids::<T>(found::item_views(lists[m]@)));
        let p = choose|p: int| 0 <= p < ids[m].len() && ids[m][p] == out[k].0;
        let v = lists[m]@[p]@;
        assert(T::id(v) == out[k].0);
        assert(found_at(lists, m, p, v));
        law_everything_found_is_ordered(lists, v);
        let q = choose|q: int|
            0 <= q < step::all_items(lists).len() && step::all_items(lists)[q] == v;
        assert(found::ids::<T>(step::all_items(lists))[q] == out[k].0);
    }
}

/// Holds where results are the best of what was found, in falling order: each is a thing that a
/// method found, with the score of its identifier; no two have one identifier; there are as many as
/// are wanted, or else everything with a score that is high enough is among them; and nothing that
/// is left out scores higher than what is there.
pub open spec fn are_the_best<T: Found>(
    lists: Seq<Vec<T>>,
    min: Score,
    limit: nat,
    r: HitsView<T::V>,
) -> bool {
    &&& r.items.len() == r.scores.len() <= limit
    &&& forall|k: int|
        0 <= k < r.items.len() ==> {
            &&& exists|l: int, i: int| found_at(lists, l, i, #[trigger] r.items[k])
            &&& r.scores[k] == score_among(lists, T::id(r.items[k]))
            &&& r.scores[k].at_least(min)
        }
    &&& forall|j: int, k: int|
        0 <= j < k < r.items.len() ==> T::id(#[trigger] r.items[j]) != T::id(
            #[trigger] r.items[k],
        ) && r.scores[j].at_least(r.scores[k])
    &&& forall|l: int, i: int|
        #![trigger lists[l]@[i]]
        0 <= l < lists.len() && 0 <= i < lists[l]@.len() && score_among(
            lists,
            T::id(lists[l]@[i]@),
        ).at_least(min) && !found::ids::<T>(r.items).contains(T::id(lists[l]@[i]@)) ==> {
            &&& r.items.len() == limit
            &&& forall|k: int|
                0 <= k < r.items.len() ==> (#[trigger] r.scores[k]).at_least(
                    score_among(lists, T::id(lists[l]@[i]@)),
                )
        }
}

proof fn lemma_fused_results<T: Found>(lists: Seq<Vec<T>>, min: Score, limit: nat)
    requires
        can_fuse(lists),
    ensures
        are_the_best(
            lists,
            min,
            limit,
            step::ordered_hits::<T>(step::all_items(lists), step::fused_lists::<T>(lists, min), limit),
        ),
{
    let order = step::fused_lists::<T>(lists, min);
    let all = step::all_items(lists);
    let r = step::ordered_hits::<T>(all, order, limit);
    law_fused_lists_have_what_was_found(lists, min, -1, -1);
    laws::law_hits_follow_the_order::<T>(all, order, limit);
    assert forall|k: int| 0 <= k < r.items.len() implies {
        &&& exists|l: int, i: int| found_at(lists, l, i, #[trigger] r.items[k])
        &&& r.scores[k] == score_among(lists, T::id(r.items[k]))
        &&& r.scores[k].at_least(min)
    } by {
        law_everything_found_is_ordered(lists, r.items[k]);
        assert(order[k].0 == T::id(r.items[k]));
    }
    assert forall|j: int, k: int| 0 <= j < k < r.items.len() implies T::id(#[trigger] r.items[j])
        != T::id(#[trigger] r.items[k]) && r.scores[j].at_least(r.scores[k]) by {
        assert(order[j].0 != order[k].0);
    }
    assert forall|l: int, i: int|
        #![trigger lists[l]@[i]]
        0 <= l < lists.len() && 0 <= i < lists[l]@.len() && score_among(
            lists,
            T::id(lists[l]@[i]@),
        ).at_least(min) && !found::ids::<T>(r.items).contains(T::id(lists[l]@[i]@)) implies {
        &&& r.items.len() == limit
        &&& forall|k: int|
            0 <= k < r.items.len() ==> (#[trigger] r.scores[k]).at_least(
                score_among(lists, T::id(lists[l]@[i]@)),
            )
    } by {
        let uuid = T::id(lists[l]@[i]@);
        law_fused_lists_have_what_was_found(lists, min, l, i);
        let p = choose|p: int|
            0 <= p < order.len() && order[p] == (uuid, score_among(lists, uuid));
        if p < r.items.len() {
            assert(found::ids::<T>(r.items)[p] == uuid);
        }
        assert forall|k: int| 0 <= k < r.items.len() implies (#[trigger] r.scores[k]).at_least(
            score_among(lists, uuid),
        ) by {
            assert(r.scores[k] == order[k].1);
            assert(order[k].1.at_least(order[p].1));
        }
    }
}

/// Facts, entities and communities that are ordered by fusing are the best of what was found.
pub proof fn law_fused_results_are_the_best(
    edges: Seq<Vec<EntityEdge>>,
    nodes: Seq<Vec<EntityNode>>,
    communities: Seq<Vec<CommunityNode>>,
    center: Option<Seq<char>>,
    limit: nat,
    min: Score,
)
    ensures
        can_fuse(edges) ==> (edge_search::edge_rerank_step(
            edges,
            EdgeReranker::Rrf,
            center,
            limit,
            min,
        ) matches RerankStepView::Done(r) && are_the_best(edges, min, limit, r)),
        can_fuse(nodes) ==> (node_search::node_rerank_step(
            nodes,
            NodeReranker::Rrf,
            center,
            limit,
            min,
        ) matches RerankStepView::Done(r) && are_the_best(nodes, min, limit, r)),
        can_fuse(communities) ==> (community_search::community_rerank_step(
            communities,
            CommunityReranker::Rrf,
            limit,
            min,
        ) matches RerankStepView::Done(r) && are_the_best(communities, min, limit, r)),
{
    if can_fuse(edges) {
        lemma_fused_results(edges, min, limit);
    }
    if can_fuse(nodes) {
        lemma_fused_results(nodes, min, limit);
    }
    if can_fuse(communities) {
        lemma_fused_results(communities, min, limit);
    }
}

/// Of episodes that were found more than once the first is left.
pub proof fn law_first_episodes_are_left(episodes: Seq<EpisodicNodeView>) -> (at: Seq<int>)
    ensures
        selection::selects(
            episodes,
            episode_search::first_episodes(episodes),
            at,
            |i: int, e: EpisodicNodeView|
                forall|j: int| 0 <= j < i ==> (#[trigger] episodes[j]).uuid != e.uuid,
            |e: EpisodicNodeView| e,
        ),
        forall|i: int|
            0 <= i < episodes.len() ==> found::ids::<EpisodicNode>(
                episode_search::first_episodes(episodes),
            ).contains((#[trigger] episodes[i]).uuid),
    decreases episodes.len(),
{
    let keep = |i: int, e: EpisodicNodeView|
        forall|j: int| 0 <= j < i ==> (#[trigger] episodes[j]).uuid != e.uuid;
    let make = |e: EpisodicNodeView| e;
    let all = episode_search::first_episodes(episodes);
    if episodes.len() == 0 {
        Seq::empty()
    } else {
        let init = episodes.drop_last();
        let n = episodes.len() - 1;
        let last = episodes.last();
        assert(episodes[n] == last);
        let at = law_first_episodes_are_left(init);
        let before = episode_search::first_episodes(init);
        let had = |i: int, e: EpisodicNodeView|
            forall|j: int| 0 <= j < i ==> (#[trigger] init[j]).uuid != e.uuid;
        assert forall|i: int| 0 <= i < n implies had(i, #[trigger] episodes[i]) == keep(
            i,
            episodes[i],
        ) by {
            if had(i, episodes[i]) {
                assert forall|j: int| 0 <= j < i implies (#[trigger] episodes[j]).uuid
                    != episodes[i].uuid by {
                    assert(init[j] == episodes[j]);
                }
            }
            if keep(i, episodes[i]) {
                assert forall|j: int| 0 <= j < i implies (#[trigger] init[j]).uuid
                    != episodes[i].uuid by {
                    assert(init[j] == episodes[j]);
                }
            }
        }
        selection::lemma_selects_next(episodes, before, at, had, keep, make);
        let ids = found::ids::<EpisodicNode>(before);
        let more = found::ids::<EpisodicNode>(all);
        assert forall|i: int| 0 <= i < episodes.len() implies more.contains(
            (#[trigger] episodes[i]).uuid,
        ) by {
            if i < n {
                assert(init[i] == episodes[i]);
                let k = choose|k: int| 0 <= k < ids.len() && ids[k] == episodes[i].uuid;
                assert(all[k] == before[k]);
                assert(more[k] == episodes[i].uuid);
            } else if !ids.contains(last.uuid) {
                assert(all[before.len() as int] == last);
                assert(more[before.len() as int] == last.uuid);
            }
        }
        if ids.contains(last.uuid) {
            let k = choose|k: int| 0 <= k < ids.len() && ids[k] == last.uuid;
            assert(before[k] == init[at[k]]);
            assert(episodes[at[k]].uuid == last.uuid);
            assert(!keep(n, last));
            at
        } else {
            assert forall|j: int| 0 <= j < n implies (#[trigger] episodes[j]).uuid != last.uuid by {
                assert(init[j] == episodes[j]);
            }
            at.push(n)
        }
    }
}

/// Episodes that are ordered by fusing are the best of what was found.
pub proof fn law_fused_episodes_are_the_best(
    lists: Seq<Vec<EpisodicNode>>,
    limit: nat,
    min: Score,
)
    requires
        can_fuse(lists),
    ensures
        episode_search::episode_rerank_step(
            lists,
            EpisodeReranker::Rrf,
            limit,
            min,
        ) matches RerankStepView::Done(r) && are_the_best(lists, min, limit, r),
{
    let order = step::fused_lists::<EpisodicNode>(lists, min);
    let every = step::all_items(lists);
    let all = episode_search::found_episodes(lists);
    let at = law_first_episodes_are_left(every);
    law_fused_lists_have_what_was_found(lists, min, -1, -1);
    assert forall|i: int| 0 <= i < order.len() implies found::ids::<EpisodicNode>(all).contains(
        (#[trigger] order[i]).0,
    ) by {
        let ids = found::ids::<EpisodicNode>(every);
        let p = choose|p: int| 0 <= p < ids.len() && ids[p] == order[i].0;
        assert(every[p].uuid == order[i].0);
    }
    laws::law_hits_follow_the_order::<EpisodicNode>(all, order, limit);
    laws::law_hits_follow_the_order::<EpisodicNode>(every, order, limit);
    lemma_fused_results(lists, min, limit);
    let r = step::ordered_hits::<EpisodicNode>(all, order, limit);
    let q = step::ordered_hits::<EpisodicNode>(every, order, limit);
    assert forall|k: int| 0 <= k < r.items.len() implies {
        &&& exists|l: int, i: int| found_at(lists, l, i, #[trigger] r.items[k])
        &&& r.items[k].uuid == q.items[k].uuid
        &&& r.scores[k] == q.scores[k]
    } by {
        let p = choose|p: int| 0 <= p < all.len() && all[p] == r.items[k];
        assert(all[p] == every[at[p]]);
        assert(every.contains(r.items[k]));
        law_everything_found_is_ordered(lists, r.items[k]);
        assert(EpisodicNode::id(q.items[k]) == order[k].0);
    }
    assert(found::ids::<EpisodicNode>(r.items) =~= found::ids::<EpisodicNode>(q.items)) by {
        assert forall|k: int| 0 <= k < r.items.len() implies found::ids::<EpisodicNode>(r.items)[k]
            == found::ids::<EpisodicNode>(q.items)[k] by {
            assert(r.items[k].uuid == q.items[k].uuid);
        }
    }
    assert(r.scores =~= q.scores);
    assert forall|k: int| 0 <= k < r.items.len() implies {
        &&& r.scores[k] == score_among(lists, EpisodicNode::id(#[trigger] r.items[k]))
        &&& r.scores[k].at_least(min)
    } by {
        assert(EpisodicNode::id(r.items[k]) == EpisodicNode::id(q.items[k]));
    }
    assert forall|j: int, k: int| 0 <= j < k < r.items.len() implies EpisodicNode::id(
        #[trigger] r.items[j],
    ) != EpisodicNode::id(#[trigger] r.items[k]) && r.scores[j].at_least(r.scores[k]) by {
        assert(EpisodicNode::id(q.items[j]) != EpisodicNode::id(q.items[k]));
    }
}

/// Holds where identifiers are all different and are those of what was found.
pub open spec fn are_the_found_ones<T: Found>(lists: Seq<Vec<T>>, uuids: Seq<Seq<char>>) -> bool {
    &&& forall|u: Seq<char>| #[trigger]
        uuids.contains(u) <==> exists|l: int, i: int|
            #![trigger lists[l]@[i]]
            0 <= l < lists.len() && 0 <= i < lists[l]@.len() && T::id(lists[l]@[i]@) == u
    &&& forall|i: int, j: int| 0 <= i < j < uuids.len() ==> #[trigger] uuids[i] != #[trigger] uuids[j]
}

/// A thing that was found goes by its own identifier. A model reads the text of a fact, the name of
/// an entity or a community, and the content of an episode.
pub proof fn law_things_go_by_their_identifiers(
    edge: EntityEdge,
    node: EntityNode,
    episode: EpisodicNode,
    community: CommunityNode,
)
    ensures
        EntityEdge::id(edge@) == edge.uuid@ && EntityEdge::passage(edge@) == edge.fact@,
        EntityNode::id(node@) == node.uuid@ && EntityNode::passage(node@) == node.name@,
        EpisodicNode::id(episode@) == episode.uuid@ && EpisodicNode::passage(episode@)
            == episode.content@,
        CommunityNode::id(community@) == community.uuid@ && CommunityNode::passage(community@)
            == community.name@,
{
}

proof fn lemma_uuid_order<T: Found>(lists: Seq<Vec<T>>)
    ensures
        are_the_found_ones(lists, step::uuid_order(lists)),
{
    let ids = found::ids::<T>(step::all_items(lists));
    let out = step::uuid_order(lists);
    assert forall|u: Seq<char>| #[trigger]
        out.contains(u) <==> exists|l: int, i: int|
            #![trigger lists[l]@[i]]
            0 <= l < lists.len() && 0 <= i < lists[l]@.len() && T::id(lists[l]@[i]@) == u by {
        laws::law_first_occurrences_have_all(ids, u);
        if ids.contains(u) {
            let p = choose|p: int| 0 <= p < ids.len() && ids[p] == u;
            let v = step::all_items(lists)[p];
            law_everything_found_is_ordered(lists, v);
            let (l, i) = choose|l: int, i: int| found_at(lists, l, i, v);
            assert(T::id(lists[l]@[i]@) == u);
        }
        if exists|l: int, i: int|
            #![trigger lists[l]@[i]]
            0 <= l < lists.len() && 0 <= i < lists[l]@.len() && T::id(lists[l]@[i]@) == u {
            let (l, i) = choose|l: int, i: int|
                #![trigger lists[l]@[i]]
                0 <= l < lists.len() && 0 <= i < lists[l]@.len() && T::id(lists[l]@[i]@) == u;
            let v = lists[l]@[i]@;
            assert(found_at(lists, l, i, v));
            law_everything_found_is_ordered(lists, v);
            let p = choose|p: int|
                0 <= p < step::all_items(lists).len() && step::all_items(lists)[p] == v;
            assert(ids[p] == u);
        }
    }
    laws::law_first_occurrences_have_all(ids, Seq::empty());
}

/// An ordering by diversity asks for the embedding of everything that was found, once.
pub proof fn law_everything_found_is_embedded(
    edges: Seq<Vec<EntityEdge>>,
    nodes: Seq<Vec<EntityNode>>,
    communities: Seq<Vec<CommunityNode>>,
    center: Option<Seq<char>>,
    limit: nat,
    min: Score,
)
    ensures
        edge_search::edge_rerank_step(
            edges,
            EdgeReranker::Mmr,
            center,
            limit,
            min,
        ) matches RerankStepView::NeedEmbeddings(u) && are_the_found_ones(edges, u),
        node_search::node_rerank_step(
            nodes,
            NodeReranker::Mmr,
            center,
            limit,
            min,
        ) matches RerankStepView::NeedEmbeddings(u) && are_the_found_ones(nodes, u),
        community_search::community_rerank_step(
            communities,
            CommunityReranker::Mmr,
            limit,
            min,
        ) matches RerankStepView::NeedEmbeddings(u) && are_the_found_ones(communities, u),
{
    lemma_uuid_order(edges);
    lemma_uuid_order(nodes);
    lemma_uuid_order(communities);
}

/// An ordering by nearness or mentions starts from what was found with a score that is high enough.
/// The graph is asked about all of it but the center: of facts, about their sources.
pub proof fn law_found_ones_are_asked_about(
    edges: Seq<Vec<EntityEdge>>,
    nodes: Seq<Vec<EntityNode>>,
    center: Seq<char>,
    limit: nat,
    min: Score,
    uuid: Seq<char>,
)
    requires
        can_fuse(edges),
        can_fuse(nodes),
    ensures
        edge_search::edge_rerank_step(
            edges,
            EdgeReranker::NodeDistance,
            Some(center),
            limit,
            min,
        ) matches RerankStepView::NeedConnections(u) && (u.contains(uuid) <==> uuid != center
            && exists|k: int|
            0 <= k < edge_search::fused_edges(edges, min).len() && (
            #[trigger] edge_search::fused_edges(edges, min)[k]).source_node_uuid == uuid),
        node_search::node_rerank_step(
            nodes,
            NodeReranker::NodeDistance,
            Some(center),
            limit,
            min,
        ) matches RerankStepView::NeedConnections(u) && (u.contains(uuid) <==> uuid != center
            && exists|l: int, i: int|
            #![trigger nodes[l]@[i]]
            0 <= l < nodes.len() && 0 <= i < nodes[l]@.len() && nodes[l]@[i]@.uuid == uuid
                && score_among(nodes, uuid).at_least(min)),
        node_search::node_rerank_step(
            nodes,
            NodeReranker::EpisodeMentions,
            Some(center),
            limit,
            min,
        ) matches RerankStepView::NeedMentionCounts(u) && (u.contains(uuid) <==> exists|
            l: int,
            i: int,
        |
            #![trigger nodes[l]@[i]]
            0 <= l < nodes.len() && 0 <= i < nodes[l]@.len() && nodes[l]@[i]@.uuid == uuid
                && score_among(nodes, uuid).at_least(Score { bits: 0 })),
{
    let facts = edge_search::fused_edges(edges, min);
    let from = edge_search::sources(facts);
    let once = dedup_index::first_seen(from);
    laws::law_first_occurrences_have_all(from, uuid);
    lemma_others(once, center, uuid);
    if from.contains(uuid) {
        let k = choose|k: int| 0 <= k < from.len() && from[k] == uuid;
        assert(facts[k].source_node_uuid == uuid);
    }
    if exists|k: int| 0 <= k < facts.len() && (#[trigger] facts[k]).source_node_uuid == uuid {
        let k = choose|k: int|
            0 <= k < facts.len() && (#[trigger] facts[k]).source_node_uuid == uuid;
        assert(from[k] == uuid);
    }
    lemma_fused_uuids(nodes, min, uuid);
    lemma_fused_uuids(nodes, Score { bits: 0 }, uuid);
    lemma_others(
        found::scored_uuids(step::fused_lists::<EntityNode>(nodes, min)),
        center,
        uuid,
    );
}

proof fn lemma_others(uuids: Seq<Seq<char>>, center: Seq<char>, uuid: Seq<char>)
    ensures
        rerank::others(uuids, center).contains(uuid) <==> uuids.contains(uuid) && uuid != center,
{
    let out = rerank::others(uuids, center);
    let at = laws::law_center_is_not_asked_about(uuids, center);
    if out.contains(uuid) {
        let k = choose|k: int| 0 <= k < out.len() && out[k] == uuid;
        assert(uuids[at[k]] == uuid);
    }
    if uuids.contains(uuid) && uuid != center {
        let i = choose|i: int| 0 <= i < uuids.len() && uuids[i] == uuid;
        let k = choose|k: int| 0 <= k < at.len() && at[k] == i;
        assert(out[k] == uuid);
    }
}

proof fn lemma_fused_uuids<T: Found>(lists: Seq<Vec<T>>, min: Score, uuid: Seq<char>)
    requires
        can_fuse(lists),
    ensures
        found::scored_uuids(step::fused_lists::<T>(lists, min)).contains(uuid) <==> exists|
            l: int,
            i: int,
        |
            #![trigger lists[l]@[i]]
            0 <= l < lists.len() && 0 <= i < lists[l]@.len() && T::id(lists[l]@[i]@) == uuid
                && score_among(lists, uuid).at_least(min),
{
    let order = step::fused_lists::<T>(lists, min);
    let uuids = found::scored_uuids(order);
    law_fused_lists_have_what_was_found(lists, min, -1, -1);
    if uuids.contains(uuid) {
        let k = choose|k: int| 0 <= k < uuids.len() && uuids[k] == uuid;
        assert(order[k].0 == uuid);
        let ids = found::ids::<T>(step::all_items(lists));
        let p = choose|p: int| 0 <= p < ids.len() && ids[p] == uuid;
        let v = step::all_items(lists)[p];
        law_everything_found_is_ordered(lists, v);
        let (l, i) = choose|l: int, i: int| found_at(lists, l, i, v);
        assert(T::id(lists[l]@[i]@) == uuid);
    }
    if exists|l: int, i: int|
        #![trigger lists[l]@[i]]
        0 <= l < lists.len() && 0 <= i < lists[l]@.len() && T::id(lists[l]@[i]@) == uuid
            && score_among(lists, uuid).at_least(min) {
        let (l, i) = choose|l: int, i: int|
            #![trigger lists[l]@[i]]
            0 <= l < lists.len() && 0 <= i < lists[l]@.len() && T::id(lists[l]@[i]@) == uuid
                && score_among(lists, uuid).at_least(min);
        law_fused_lists_have_what_was_found(lists, min, l, i);
        let k = choose|k: int|
            0 <= k < order.len() && order[k] == (uuid, score_among(lists, uuid));
        assert(uuids[k] == uuid);
    }
}

/// The facts that fusing leaves: each of those that were found with a score that is high enough is
/// there under its identifier, each identifier once, and nothing else.
pub proof fn law_fused_facts_were_found(
    edges: Seq<Vec<EntityEdge>>,
    min: Score,
    uuid: Seq<char>,
)
    requires
        can_fuse(edges),
    ensures
        ({
            let facts = edge_search::fused_edges(edges, min);
            &&& forall|k: int|
                0 <= k < facts.len() ==> was_found(edges, #[trigger] facts[k])
            &&& forall|j: int, k: int|
                0 <= j < k < facts.len() ==> (#[trigger] facts[j]).uuid != (
                #[trigger] facts[k]).uuid
            &&& (exists|k: int| 0 <= k < facts.len() && (#[trigger] facts[k]).uuid == uuid) <==> (
            exists|l: int, i: int|
                #![trigger edges[l]@[i]]
                0 <= l < edges.len() && 0 <= i < edges[l]@.len() && edges[l]@[i]@.uuid == uuid
                    && score_among(edges, uuid).at_least(min))
        }),
{
    let order = step::fused_lists::<EntityEdge>(edges, min);
    let uuids = found::scored_uuids(order);
    let all = step::all_items(edges);
    let facts = edge_search::fused_edges(edges, min);
    law_fused_lists_have_what_was_found(edges, min, -1, -1);
    assert forall|i: int| 0 <= i < uuids.len() implies found::ids::<EntityEdge>(all).contains(
        #[trigger] uuids[i],
    ) by {
        assert(uuids[i] == order[i].0);
    }
    laws::law_things_are_picked_in_order::<EntityEdge>(all, uuids);
    assert forall|k: int| 0 <= k < facts.len() implies was_found(
        edges,
        #[trigger] facts[k],
    ) by {
        assert(all.contains(facts[k]));
        law_everything_found_is_ordered(edges, facts[k]);
    }
    assert forall|j: int, k: int| 0 <= j < k < facts.len() implies (#[trigger] facts[j]).uuid != (
    #[trigger] facts[k]).uuid by {
        assert(EntityEdge::id(facts[j]) == uuids[j] && EntityEdge::id(facts[k]) == uuids[k]);
        assert(order[j].0 != order[k].0);
    }
    lemma_fused_uuids(edges, min, uuid);
    if exists|k: int| 0 <= k < facts.len() && (#[trigger] facts[k]).uuid == uuid {
        let k = choose|k: int| 0 <= k < facts.len() && (#[trigger] facts[k]).uuid == uuid;
        assert(EntityEdge::id(facts[k]) == uuids[k]);
        assert(uuids.contains(uuid));
    }
    if uuids.contains(uuid) {
        let k = choose|k: int| 0 <= k < uuids.len() && uuids[k] == uuid;
        assert(EntityEdge::id(facts[k]) == uuid);
        assert(facts[k].uuid == uuid);
    }
}

/// A search that needs the embedding of the query is one by similarity or one whose results are
/// ordered by diversity.
pub proof fn law_embeddings_are_needed_for_similarity(
    edges: ScopeView<EdgeSearchMethod, EdgeReranker>,
    nodes: ScopeView<NodeSearchMethod, NodeReranker>,
    communities: ScopeView<CommunitySearchMethod, CommunityReranker>,
)
    ensures
        edge_search::edges_need_embedding(edges) <==> edges.reranker == EdgeReranker::Mmr || exists|
            i: int,
        |
            0 <= i < edges.search_methods.len() && #[trigger] edges.search_methods[i]
                == EdgeSearchMethod::CosineSimilarity,
        node_search::nodes_need_embedding(nodes) <==> nodes.reranker == NodeReranker::Mmr || exists|
            i: int,
        |
            0 <= i < nodes.search_methods.len() && #[trigger] nodes.search_methods[i]
                == NodeSearchMethod::CosineSimilarity,
        community_search::communities_need_embedding(communities) <==> communities.reranker
            == CommunityReranker::Mmr || exists|i: int|
            0 <= i < communities.search_methods.len() && #[trigger] communities.search_methods[i]
                == CommunitySearchMethod::CosineSimilarity,
{
}

/// Holds where things were found and go by the first of some identifiers, in order: as many as are
/// wanted, or by all of them.
pub open spec fn are_the_first<T: Found>(
    lists: Seq<Vec<T>>,
    uuids: Seq<Seq<char>>,
    limit: nat,
    things: Seq<T::V>,
) -> bool {
    &&& things.len() == if uuids.len() <= limit {
        uuids.len()
    } else {
        limit
    }
    &&& forall|k: int|
        0 <= k < things.len() ==> was_found(lists, #[trigger] things[k]) && T::id(things[k])
            == uuids[k]
}

/// Holds where texts are all different and are those of some things.
pub open spec fn are_the_passages<T: Found>(things: Seq<T::V>, texts: Seq<Seq<char>>) -> bool {
    &&& forall|t: Seq<char>| #[trigger]
        texts.contains(t) <==> exists|k: int|
            0 <= k < things.len() && T::passage(#[trigger] things[k]) == t
    &&& forall|i: int, j: int| 0 <= i < j < texts.len() ==> #[trigger] texts[i] != #[trigger] texts[j]
}

proof fn lemma_passages<T: Found>(things: Seq<T::V>)
    ensures
        are_the_passages::<T>(things, dedup_index::first_seen(found::passages::<T>(things))),
{
    let all = found::passages::<T>(things);
    let once = dedup_index::first_seen(all);
    laws::law_first_occurrences_have_all(all, Seq::empty());
    assert forall|t: Seq<char>| #[trigger]
        once.contains(t) <==> exists|k: int|
            0 <= k < things.len() && T::passage(#[trigger] things[k]) == t by {
        laws::law_first_occurrences_have_all(all, t);
        if all.contains(t) {
            let k = choose|k: int| 0 <= k < all.len() && all[k] == t;
            assert(T::passage(things[k]) == t);
        }
        if exists|k: int| 0 <= k < things.len() && T::passage(#[trigger] things[k]) == t {
            let k = choose|k: int| 0 <= k < things.len() && T::passage(#[trigger] things[k]) == t;
            assert(all[k] == t);
        }
    }
}

proof fn lemma_first_picked<T: Found>(
    lists: Seq<Vec<T>>,
    items: Seq<T::V>,
    uuids: Seq<Seq<char>>,
    limit: nat,
)
    requires
        forall|v: T::V| #[trigger] items.contains(v) ==> step::all_items(lists).contains(v),
        forall|i: int|
            0 <= i < uuids.len() ==> found::ids::<T>(items).contains(#[trigger] uuids[i]),
    ensures
        are_the_first(
            lists,
            uuids,
            limit,
            found::picked::<T>(items, found::limited(uuids, limit)),
        ),
{
    let first = found::limited(uuids, limit);
    let things = found::picked::<T>(items, first);
    assert forall|i: int| 0 <= i < first.len() implies found::ids::<T>(items).contains(
        #[trigger] first[i],
    ) by {
        assert(first[i] == uuids[i]);
    }
    laws::law_things_are_picked_in_order::<T>(items, first);
    assert forall|k: int| 0 <= k < things.len() implies was_found(lists, #[trigger] things[k])
        && T::id(things[k]) == uuids[k] by {
        assert(items.contains(things[k]));
        law_everything_found_is_ordered(lists, things[k]);
        assert(first[k] == uuids[k]);
    }
}

proof fn lemma_order_is_of_ids<T: Found>(lists: Seq<Vec<T>>)
    ensures
        forall|i: int|
            0 <= i < step::uuid_order(lists).len() ==> found::ids::<T>(
                step::all_items(lists),
            ).contains(#[trigger] step::uuid_order(lists)[i]),
{
    let ids = found::ids::<T>(step::all_items(lists));
    let order = step::uuid_order(lists);
    assert forall|i: int| 0 <= i < order.len() implies ids.contains(#[trigger] order[i]) by {
        laws::law_first_occurrences_have_all(ids, order[i]);
        assert(order.contains(order[i]));
    }
}

/// A model is asked to score the texts of the first different facts, as many as are wanted, and the
/// names of all entities or communities that were found, each text once.
pub proof fn law_model_scores_what_was_found(
    edges: Seq<Vec<EntityEdge>>,
    nodes: Seq<Vec<EntityNode>>,
    communities: Seq<Vec<CommunityNode>>,
    center: Option<Seq<char>>,
    limit: nat,
    min: Score,
)
    ensures
        are_the_first(
            edges,
            step::uuid_order(edges),
            limit,
            edge_search::edges_to_score(edges, limit),
        ),
        edge_search::edge_rerank_step(
            edges,
            EdgeReranker::CrossEncoder,
            center,
            limit,
            min,
        ) matches RerankStepView::NeedRanking(texts) && are_the_passages::<EntityEdge>(
            edge_search::edges_to_score(edges, limit),
            texts,
        ),
        are_the_first(
            nodes,
            step::uuid_order(nodes),
            step::uuid_order(nodes).len(),
            node_search::found_nodes(nodes),
        ),
        node_search::node_rerank_step(
            nodes,
            NodeReranker::CrossEncoder,
            center,
            limit,
            min,
        ) matches RerankStepView::NeedRanking(texts) && are_the_passages::<EntityNode>(
            node_search::found_nodes(nodes),
            texts,
        ),
        are_the_first(
            communities,
            step::uuid_order(communities),
            step::uuid_order(communities).len(),
            community_search::found_communities(communities),
        ),
        community_search::community_rerank_step(
            communities,
            CommunityReranker::CrossEncoder,
            limit,
            min,
        ) matches RerankStepView::NeedRanking(texts) && are_the_passages::<CommunityNode>(
            community_search::found_communities(communities),
            texts,
        ),
{
    lemma_order_is_of_ids(edges);
    lemma_order_is_of_ids(nodes);
    lemma_order_is_of_ids(communities);
    lemma_first_picked(edges, step::all_items(edges), step::uuid_order(edges), limit);
    lemma_first_picked(
        nodes,
        step::all_items(nodes),
        step::uuid_order(nodes),
        step::uuid_order(nodes).len(),
    );
    lemma_first_picked(
        communities,
        step::all_items(communities),
        step::uuid_order(communities),
        step::uuid_order(communities).len(),
    );
    lemma_passages::<EntityEdge>(edge_search::edges_to_score(edges, limit));
    lemma_passages::<EntityNode>(node_search::found_nodes(nodes));
    lemma_passages::<CommunityNode>(community_search::found_communities(communities));
}

/// Of episodes a model is asked to score the contents of the best, as many as are wanted, each text
/// once.
pub proof fn law_model_scores_the_best_episodes(
    lists: Seq<Vec<EpisodicNode>>,
    limit: nat,
    min: Score,
)
    requires
        can_fuse(lists),
    ensures
        are_the_first(
            lists,
            found::scored_uuids(step::fused_lists::<EpisodicNode>(lists, min)),
            limit,
            episode_search::episodes_to_score(lists, limit, min),
        ),
        episode_search::episode_rerank_step(
            lists,
            EpisodeReranker::CrossEncoder,
            limit,
            min,
        ) matches RerankStepView::NeedRanking(texts) && are_the_passages::<EpisodicNode>(
            episode_search::episodes_to_score(lists, limit, min),
            texts,
        ),
{
    let order = step::fused_lists::<EpisodicNode>(lists, min);
    let uuids = found::scored_uuids(order);
    let every = step::all_items(lists);
    let all = episode_search::found_episodes(lists);
    let at = law_first_episodes_are_left(every);
    law_fused_lists_have_what_was_found(lists, min, -1, -1);
    assert forall|v: EpisodicNodeView| #[trigger] all.contains(v) implies every.contains(v) by {
        let p = choose|p: int| 0 <= p < all.len() && all[p] == v;
        assert(every[at[p]] == v);
    }
    assert forall|i: int| 0 <= i < uuids.len() implies found::ids::<EpisodicNode>(all).contains(
        #[trigger] uuids[i],
    ) by {
        assert(uuids[i] == order[i].0);
        let ids = found::ids::<EpisodicNode>(every);
        let p = choose|p: int| 0 <= p < ids.len() && ids[p] == order[i].0;
        assert(every[p].uuid == order[i].0);
    }
    lemma_first_picked(lists, all, uuids, limit);
    lemma_passages::<EpisodicNode>(episode_search::episodes_to_score(lists, limit, min));
}

/// Facts that are ordered by mentions are the most mentioned of those that fusing leaves, in falling
/// order: nothing that is left out has more episodes than what is there, and something is left out
/// only where there are as many as are wanted.
pub proof fn law_most_mentioned_facts_are_left(
    edges: Seq<Vec<EntityEdge>>,
    center: Option<Seq<char>>,
    limit: nat,
    min: Score,
    out: int,
)
    requires
        edge_search::fused_edges(edges, min).len() <= usize::MAX,
    ensures
        edge_search::edge_rerank_step(
            edges,
            EdgeReranker::EpisodeMentions,
            center,
            limit,
            min,
        ) matches RerankStepView::Done(r) && {
            let facts = edge_search::fused_edges(edges, min);
            &&& r.items.len() == if facts.len() <= limit {
                facts.len()
            } else {
                limit
            }
            &&& forall|k: int| 0 <= k < r.items.len() ==> facts.contains(#[trigger] r.items[k])
            &&& forall|j: int, k: int|
                0 <= j < k < r.items.len() ==> (#[trigger] r.items[j]).episodes.len() >= (
                #[trigger] r.items[k]).episodes.len()
            &&& 0 <= out < facts.len() && !r.items.contains(facts[out]) ==> r.items.len() == limit
                && forall|k: int|
                0 <= k < r.items.len() ==> (#[trigger] r.items[k]).episodes.len()
                    >= facts[out].episodes.len()
        },
{
    let facts = edge_search::fused_edges(edges, min);
    let sorted = edge_search::most_mentioned(facts);
    let order = laws::law_most_mentioned_come_first(facts);
    let items = found::limited(sorted, limit);
    assert forall|k: int| 0 <= k < items.len() implies facts.contains(#[trigger] items[k]) by {
        assert(items[k] == sorted[k]);
        assert(sorted[k] == facts[order[k]]);
    }
    assert forall|j: int, k: int| 0 <= j < k < items.len() implies (
    #[trigger] items[j]).episodes.len() >= (#[trigger] items[k]).episodes.len() by {
        assert(items[j] == sorted[j] && items[k] == sorted[k]);
    }
    if 0 <= out < facts.len() && !items.contains(facts[out]) {
        assert(order.contains(out));
        let p = choose|p: int| 0 <= p < order.len() && order[p] == out;
        assert(sorted[p] == facts[out]);
        if p < items.len() {
            assert(items[p] == facts[out]);
        }
        assert forall|k: int| 0 <= k < items.len() implies (#[trigger] items[k]).episodes.len()
            >= facts[out].episodes.len() by {
            assert(items[k] == sorted[k]);
            assert(sorted[k].episodes.len() >= sorted[p].episodes.len());
        }
    }
}

/// The sources of facts by nearness are those of the order by nearness of all sources whose scores are
/// high enough.
pub proof fn law_near_sources_are_left(
    edges: Seq<Vec<EntityEdge>>,
    center: Seq<char>,
    connected: Set<Seq<char>>,
    min: Score,
) -> (at: Seq<int>)
    ensures
        selection::selects(
            rerank::by_distance(
                dedup_index::first_seen(
                    edge_search::sources(edge_search::fused_edges(edges, min)),
                ),
                center,
                connected,
            ),
            edge_search::source_distances(edges, center, connected, min),
            at,
            |i: int, p: (Seq<char>, Score)| p.1.at_least(min),
            |p: (Seq<char>, Score)| p,
        ),
{
    laws::law_low_scores_go(
        rerank::by_distance(
            dedup_index::first_seen(edge_search::sources(edge_search::fused_edges(edges, min))),
            center,
            connected,
        ),
        min,
    )
}

} // verus!
