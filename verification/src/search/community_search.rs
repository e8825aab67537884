//! The search for communities. It always looks both by words and by similarity.
use crate::errors::ChronicleError;
use crate::pipeline::dedup_index;
use crate::score::Score;
use crate::search::config::{
    CommunityReranker, CommunitySearchConfig, CommunitySearchMethod, ScopeView,
};
use crate::search::found::{self, distinct_passages, flatten, pick, take_ranked, RankedPassage};
use crate::search::step::{
    self, choose_call, distinct_uuids, fuse, make_hits, refuse, COMMUNITY_CROSS_ENCODER_MISSING,
    Hits, RerankStep, RerankStepView, SearchCall, SearchPlan,
};
use crate::text;
use crate::types::community::{CommunityNode, CommunityNodeView};
use vstd::prelude::*;

verus! {

/// Whether a search for communities needs the embedding of the query.
pub open spec fn communities_need_embedding(
    config: ScopeView<CommunitySearchMethod, CommunityReranker>,
) -> bool {
    config.search_methods.contains(CommunitySearchMethod::CosineSimilarity) || config.reranker
        == CommunityReranker::Mmr
}

/// Tells whether a search for communities needs the embedding of the query.
pub fn community_search_needs_embedding(config: &CommunitySearchConfig) -> (r: bool)
    ensures
        r == communities_need_embedding(config@),
{
    config.uses(CommunitySearchMethod::CosineSimilarity) || config.reranker
        == CommunityReranker::Mmr
}

/// The plan of a search for communities: by words and by similarity, whatever the configuration
/// says.
pub open spec fn community_plan() -> SearchPlan {
    SearchPlan { bm25: true, cosine: true, bfs: false, self_seed: false }
}

/// The method that a search for communities is to run, given the lists that the methods before it
/// found; none once both have run.
pub fn next_community_call(
    config: &CommunitySearchConfig,
    lists: &Vec<Vec<CommunityNode>>,
    limit: usize,
) -> (r: Option<SearchCall>)
    requires
        2 * limit <= usize::MAX,
    ensures
        step::call_view(r) == step::next_call(
            community_plan(),
            lists@.len(),
            Seq::empty(),
            Seq::empty(),
            config@.sim_min_score,
            config@.bfs_max_depth,
            limit as nat,
        ),
{
    let plan = SearchPlan { bm25: true, cosine: true, bfs: false, self_seed: false };
    let none: Vec<String> = Vec::new();
    assert(text::views(none@) =~= Seq::<Seq<char>>::empty());
    choose_call(
        plan,
        lists.len(),
        &None,
        none,
        config.sim_min_score,
        config.bfs_max_depth,
        limit,
    )
}

/// The different communities that were found.
pub open spec fn found_communities(lists: Seq<Vec<CommunityNode>>) -> Seq<CommunityNodeView> {
    found::picked::<CommunityNode>(step::all_items(lists), step::uuid_order::<CommunityNode>(lists))
}

/// The step with which the ordering of communities begins.
pub open spec fn community_rerank_step(
    lists: Seq<Vec<CommunityNode>>,
    reranker: CommunityReranker,
    limit: nat,
    min: Score,
) -> RerankStepView<CommunityNodeView> {
    match reranker {
        CommunityReranker::Rrf => RerankStepView::Done(
            step::ordered_hits::<CommunityNode>(
                step::all_items(lists),
                step::fused_lists::<CommunityNode>(lists, min),
                limit,
            ),
        ),
        CommunityReranker::Mmr => RerankStepView::NeedEmbeddings(
            step::uuid_order::<CommunityNode>(lists),
        ),
        CommunityReranker::CrossEncoder => RerankStepView::NeedRanking(
            dedup_index::first_seen(found::passages::<CommunityNode>(found_communities(lists))),
        ),
    }
}

/// Begins the ordering of communities that the methods found, each list by one method. Scoring by
/// a model needs one.
pub fn begin_community_rerank(
    lists: &Vec<Vec<CommunityNode>>,
    reranker: CommunityReranker,
    has_cross_encoder: bool,
    limit: usize,
    min_score: Score,
) -> (r: Result<RerankStep<CommunityNode>, ChronicleError>)
    requires
        step::can_rank(lists@),
    ensures
        if reranker == CommunityReranker::CrossEncoder && !has_cross_encoder {
            step::is_refusal(r, COMMUNITY_CROSS_ENCODER_MISSING@)
        } else {
            step::is_step(r, community_rerank_step(lists@, reranker, limit as nat, min_score))
        },
{
    let all = flatten(lists);
    match reranker {
        CommunityReranker::Rrf => {
            let (uuids, scores) = fuse(lists, min_score);
            Ok(RerankStep::Done(make_hits(&all, &uuids, scores, limit)))
        },
        CommunityReranker::Mmr => Ok(RerankStep::NeedEmbeddings(distinct_uuids(&all))),
        CommunityReranker::CrossEncoder => {
            if !has_cross_encoder {
                return refuse(COMMUNITY_CROSS_ENCODER_MISSING);
            }
            let order = distinct_uuids(&all);
            let found = pick(&all, &order);
            Ok(RerankStep::NeedRanking(distinct_passages(&found)))
        },
    }
}

/// Ends an ordering of communities by a model, once it has scored their names.
pub fn finish_communities_by_ranking(
    lists: &Vec<Vec<CommunityNode>>,
    ranked: &Vec<RankedPassage>,
    limit: usize,
    min_score: Score,
) -> (r: Hits<CommunityNode>)
    ensures
        step::hits_view(r) == step::ordered_hits::<CommunityNode>(
            step::all_items(lists@),
            found::scored_passages::<CommunityNode>(
                found_communities(lists@),
                found::ranked_views(ranked@),
                min_score,
            ),
            limit as nat,
        ),
{
    let all = flatten(lists);
    let order = distinct_uuids(&all);
    let found = pick(&all, &order);
    let (uuids, scores) = take_ranked(&found, ranked, min_score);
    make_hits(&all, &uuids, scores, limit)
}

} // verus!
