//! The search for episodes.
use crate::errors::ChronicleError;
use crate::pipeline::dedup_index::{self, holds};
use crate::score::Score;
use crate::search::config::{EpisodeReranker, EpisodeSearchConfig};
use crate::search::found::{
    self, distinct_passages, flatten, pick, take_ranked, uuids_of_items, RankedPassage,
};
use crate::search::step::{
    self, choose_call, fuse, make_hits, refuse, EPISODE_CROSS_ENCODER_MISSING, Hits, RerankStep,
    RerankStepView, SearchCall, SearchPlan,
};
use crate::text;
use crate::types::episode::{EpisodicNode, EpisodicNodeView};
use vstd::prelude::*;

verus! {

/// The plan of a search for episodes: by words alone.
pub open spec fn episode_plan() -> SearchPlan {
    SearchPlan { bm25: true, cosine: false, bfs: false, self_seed: false }
}

/// The method that a search for episodes is to run, given the lists that came before; none once it
/// has run.
pub fn next_episode_call(
    config: &EpisodeSearchConfig,
    lists: &Vec<Vec<EpisodicNode>>,
    limit: usize,
) -> (r: Option<SearchCall>)
    requires
        2 * limit <= usize::MAX,
    ensures
        step::call_view(r) == step::next_call(
            episode_plan(),
            lists@.len(),
            Seq::empty(),
            Seq::empty(),
            config@.sim_min_score,
            config@.bfs_max_depth,
            limit as nat,
        ),
{
    let plan = SearchPlan { bm25: true, cosine: false, bfs: false, self_seed: false };
    let none: Vec<String> = Vec::new();
    assert(text::views(none@) =~= Seq::<Seq<char>>::empty());
    choose_call(
        plan,
        lists.len(),
        &None,
        none,
        config.sim_min_score,
        config.bfs_max_depth,
        limit,
    )
}

/// The episodes whose identifiers do not occur before, in order.
pub open spec fn first_episodes(episodes: Seq<EpisodicNodeView>) -> Seq<EpisodicNodeView>
    decreases episodes.len(),
{
    if episodes.len() == 0 {
        Seq::empty()
    } else {
        let before = first_episodes(episodes.drop_last());
        if found::ids::<EpisodicNode>(before).contains(episodes.last().uuid) {
            before
        } else {
            before.push(episodes.last())
        }
    }
}

fn keep_first(episodes: &Vec<EpisodicNode>) -> (r: Vec<EpisodicNode>)
    ensures
        found::item_views(r@) == first_episodes(found::item_views(episodes@)),
{
    let ghost all = found::item_views(episodes@);
    let mut out: Vec<EpisodicNode> = Vec::new();
    let mut i: usize = 0;
    assert(found::item_views(out@) =~= first_episodes(all.take(0)));
    while i < episodes.len()
        invariant
            i <= episodes@.len(),
            all == found::item_views(episodes@),
            found::item_views(out@) == first_episodes(all.take(i as int)),
        decreases episodes.len() - i,
    {
        proof {
            assert(all.take(i as int + 1).drop_last() =~= all.take(i as int));
            assert(all.take(i as int + 1).last() == episodes@[i as int]@);
        }
        let seen = uuids_of_items(&out);
        if !holds(&seen, episodes[i].uuid.as_str()) {
            let ghost before = out@;
            out.push(episodes[i].clone());
            assert(
                found::item_views(out@) =~= found::item_views(before).push(episodes@[i as int]@)
            );
        }
        i += 1;
    }
    assert(all.take(all.len() as int) =~= all);
    out
}

/// The different episodes that were found.
pub open spec fn found_episodes(lists: Seq<Vec<EpisodicNode>>) -> Seq<EpisodicNodeView> {
    first_episodes(step::all_items(lists))
}

/// The episodes that a model is to score: the first `limit` in the order in which their rankings
/// are fused.
pub open spec fn episodes_to_score(
    lists: Seq<Vec<EpisodicNode>>,
    limit: nat,
    min: Score,
) -> Seq<EpisodicNodeView> {
    found::picked::<EpisodicNode>(
        found_episodes(lists),
        found::limited(found::scored_uuids(step::fused_lists::<EpisodicNode>(lists, min)), limit),
    )
}

/// The step with which the ordering of episodes begins.
pub open spec fn episode_rerank_step(
    lists: Seq<Vec<EpisodicNode>>,
    reranker: EpisodeReranker,
    limit: nat,
    min: Score,
) -> RerankStepView<EpisodicNodeView> {
    match reranker {
        EpisodeReranker::Rrf => RerankStepView::Done(
            step::ordered_hits::<EpisodicNode>(
                found_episodes(lists),
                step::fused_lists::<EpisodicNode>(lists, min),
                limit,
            ),
        ),
        EpisodeReranker::CrossEncoder => RerankStepView::NeedRanking(
            dedup_index::first_seen(
                found::passages::<EpisodicNode>(episodes_to_score(lists, limit, min)),
            ),
        ),
    }
}

fn take_to_score(lists: &Vec<Vec<EpisodicNode>>, found: &Vec<EpisodicNode>, limit: usize, min: Score) -> (r:
    Vec<EpisodicNode>)
    requires
        step::can_rank(lists@),
        found::item_views(found@) == found_episodes(lists@),
    ensures
        found::item_views(r@) == episodes_to_score(lists@, limit as nat, min),
{
    let (mut uuids, _) = fuse(lists, min);
    let ghost full = text::views(uuids@);
    if uuids.len() > limit {
        uuids.truncate(limit);
        assert(text::views(uuids@) =~= full.take(limit as int));
    }
    pick(found, &uuids)
}

/// Begins the ordering of episodes that were found. Scoring by a model needs one.
pub fn begin_episode_rerank(
    lists: &Vec<Vec<EpisodicNode>>,
    reranker: EpisodeReranker,
    has_cross_encoder: bool,
    limit: usize,
    min_score: Score,
) -> (r: Result<RerankStep<EpisodicNode>, ChronicleError>)
    requires
        step::can_rank(lists@),
    ensures
        if reranker == EpisodeReranker::CrossEncoder && !has_cross_encoder {
            step::is_refusal(r, EPISODE_CROSS_ENCODER_MISSING@)
        } else {
            step::is_step(r, episode_rerank_step(lists@, reranker, limit as nat, min_score))
        },
{
    let all = flatten(lists);
    let found = keep_first(&all);
    match reranker {
        EpisodeReranker::Rrf => {
            let (uuids, scores) = fuse(lists, min_score);
            Ok(RerankStep::Done(make_hits(&found, &uuids, scores, limit)))
        },
        EpisodeReranker::CrossEncoder => {
            if !has_cross_encoder {
                return refuse(EPISODE_CROSS_ENCODER_MISSING);
            }
            let first = take_to_score(lists, &found, limit, min_score);
            Ok(RerankStep::NeedRanking(distinct_passages(&first)))
        },
    }
}

/// Ends an ordering of episodes by a model, once it has scored their texts.
pub fn finish_episodes_by_ranking(
    lists: &Vec<Vec<EpisodicNode>>,
    ranked: &Vec<RankedPassage>,
    limit: usize,
    min_score: Score,
) -> (r: Hits<EpisodicNode>)
    requires
        step::can_rank(lists@),
    ensures
        step::hits_view(r) == step::ordered_hits::<EpisodicNode>(
            found_episodes(lists@),
            found::scored_passages::<EpisodicNode>(
                episodes_to_score(lists@, limit as nat, min_score),
                found::ranked_views(ranked@),
                min_score,
            ),
            limit as nat,
        ),
{
    let all = flatten(lists);
    let found = keep_first(&all);
    let first = take_to_score(lists, &found, limit, min_score);
    let (uuids, scores) = take_ranked(&first, ranked, min_score);
    make_hits(&found, &uuids, scores, limit)
}

} // verus!
