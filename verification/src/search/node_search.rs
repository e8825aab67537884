//! The search for entities.
use crate::collections::StringMap;
use crate::errors::ChronicleError;
use crate::pipeline::dedup_index;
use crate::score::{Score, ZERO_BITS};
use crate::search::config::{NodeReranker, NodeSearchConfig, NodeSearchMethod, ScopeView};
use crate::search::edge_search;
use crate::search::found::{
    self, distinct_passages, flatten, pick, take_ranked, uuids_of_items, RankedPassage,
};
use crate::search::rerank::{self, episode_mentions_rerank, node_distance_rerank, without_center};
use crate::search::rrf;
use crate::search::step::{
    self, choose_call, distinct_uuids, fuse, make_hits, refuse, CENTER_MISSING, Hits,
    NODE_CROSS_ENCODER_MISSING, RerankStep, RerankStepView, SearchCall, SearchPlan,
};
use crate::text;
use crate::types::node::{EntityNode, EntityNodeView};
use vstd::prelude::*;

verus! {

/// The plan of a search for entities. The walk is run once more from what was found where no nodes
/// to start from are given.
pub open spec fn node_plan(methods: Seq<NodeSearchMethod>, has_origins: bool) -> SearchPlan {
    let bfs = methods.contains(NodeSearchMethod::BreadthFirstSearch);
    SearchPlan {
        bm25: methods.contains(NodeSearchMethod::Bm25),
        cosine: methods.contains(NodeSearchMethod::CosineSimilarity),
        bfs,
        self_seed: bfs && !has_origins,
    }
}

/// The method that a search for entities is to run, given the lists that the methods before it
/// found; none once all have run.
pub fn next_node_call(
    config: &NodeSearchConfig,
    bfs_origin_node_uuids: &Option<Vec<String>>,
    lists: &Vec<Vec<EntityNode>>,
    limit: usize,
) -> (r: Option<SearchCall>)
    requires
        2 * limit <= usize::MAX,
    ensures
        step::call_view(r) == step::next_call(
            node_plan(config@.search_methods, bfs_origin_node_uuids is Some),
            lists@.len(),
            step::given_origins(*bfs_origin_node_uuids),
            found::ids::<EntityNode>(step::all_items(lists@)),
            config@.sim_min_score,
            config@.bfs_max_depth,
            limit as nat,
        ),
{
    let bfs = config.uses(NodeSearchMethod::BreadthFirstSearch);
    let plan = SearchPlan {
        bm25: config.uses(NodeSearchMethod::Bm25),
        cosine: config.uses(NodeSearchMethod::CosineSimilarity),
        bfs,
        self_seed: bfs && bfs_origin_node_uuids.is_none(),
    };
    choose_call(
        plan,
        lists.len(),
        bfs_origin_node_uuids,
        node_origins(lists),
        config.sim_min_score,
        config.bfs_max_depth,
        limit,
    )
}

/// Whether a search for entities needs the embedding of the query.
pub open spec fn nodes_need_embedding(config: ScopeView<NodeSearchMethod, NodeReranker>) -> bool {
    config.search_methods.contains(NodeSearchMethod::CosineSimilarity) || config.reranker
        == NodeReranker::Mmr
}

/// Tells whether a search for entities needs the embedding of the query.
pub fn node_search_needs_embedding(config: &NodeSearchConfig) -> (r: bool)
    ensures
        r == nodes_need_embedding(config@),
{
    config.uses(NodeSearchMethod::CosineSimilarity) || config.reranker == NodeReranker::Mmr
}

/// Where the walk of the graph starts once more: at the entities that were found.
pub fn node_origins(lists: &Vec<Vec<EntityNode>>) -> (r: Vec<String>)
    ensures
        text::views(r@) == found::ids::<EntityNode>(step::all_items(lists@)),
{
    let all = flatten(lists);
    uuids_of_items(&all)
}

/// The different entities that were found.
pub open spec fn found_nodes(lists: Seq<Vec<EntityNode>>) -> Seq<EntityNodeView> {
    found::picked::<EntityNode>(step::all_items(lists), step::uuid_order::<EntityNode>(lists))
}

/// Zero, below which no fused score falls.
pub open spec fn zero_score() -> Score {
    Score { bits: ZERO_BITS }
}

/// The step with which the ordering of entities begins.
pub open spec fn node_rerank_step(
    lists: Seq<Vec<EntityNode>>,
    reranker: NodeReranker,
    center: Option<Seq<char>>,
    limit: nat,
    min: Score,
) -> RerankStepView<EntityNodeView> {
    match reranker {
        NodeReranker::Rrf => RerankStepView::Done(
            step::ordered_hits::<EntityNode>(
                step::all_items(lists),
                step::fused_lists::<EntityNode>(lists, min),
                limit,
            ),
        ),
        NodeReranker::Mmr => RerankStepView::NeedEmbeddings(step::uuid_order::<EntityNode>(lists)),
        NodeReranker::CrossEncoder => RerankStepView::NeedRanking(
            dedup_index::first_seen(found::passages::<EntityNode>(found_nodes(lists))),
        ),
        NodeReranker::EpisodeMentions => RerankStepView::NeedMentionCounts(
            found::scored_uuids(step::fused_lists::<EntityNode>(lists, zero_score())),
        ),
        NodeReranker::NodeDistance => RerankStepView::NeedConnections(
            rerank::others(
                found::scored_uuids(step::fused_lists::<EntityNode>(lists, min)),
                center->0,
            ),
        ),
    }
}

/// Begins the ordering of entities that the methods found, each list by one method. Scoring by a
/// model needs one, and nearness needs a center.
pub fn begin_node_rerank(
    lists: &Vec<Vec<EntityNode>>,
    reranker: NodeReranker,
    has_cross_encoder: bool,
    center_node_uuid: Option<&str>,
    limit: usize,
    min_score: Score,
) -> (r: Result<RerankStep<EntityNode>, ChronicleError>)
    requires
        step::can_rank(lists@),
    ensures
        if reranker == NodeReranker::CrossEncoder && !has_cross_encoder {
            step::is_refusal(r, NODE_CROSS_ENCODER_MISSING@)
        } else if reranker == NodeReranker::NodeDistance && center_node_uuid is None {
            step::is_refusal(r, CENTER_MISSING@)
        } else {
            step::is_step(
                r,
                node_rerank_step(
                    lists@,
                    reranker,
                    edge_search::opt_str(center_node_uuid),
                    limit as nat,
                    min_score,
                ),
            )
        },
{
    let all = flatten(lists);
    match reranker {
        NodeReranker::Rrf => {
            let (uuids, scores) = fuse(lists, min_score);
            Ok(RerankStep::Done(make_hits(&all, &uuids, scores, limit)))
        },
        NodeReranker::Mmr => Ok(RerankStep::NeedEmbeddings(distinct_uuids(&all))),
        NodeReranker::CrossEncoder => {
            if !has_cross_encoder {
                return refuse(NODE_CROSS_ENCODER_MISSING);
            }
            let order = distinct_uuids(&all);
            let found = pick(&all, &order);
            Ok(RerankStep::NeedRanking(distinct_passages(&found)))
        },
        NodeReranker::EpisodeMentions => {
            let (uuids, _) = fuse(lists, Score { bits: ZERO_BITS });
            Ok(RerankStep::NeedMentionCounts(uuids))
        },
        NodeReranker::NodeDistance => match center_node_uuid {
            Some(center) => {
                let (uuids, _) = fuse(lists, min_score);
                Ok(RerankStep::NeedConnections(without_center(&uuids, center)))
            },
            None => refuse(CENTER_MISSING),
        },
    }
}

/// Ends an ordering of entities by a model, once it has scored their names.
pub fn finish_nodes_by_ranking(
    lists: &Vec<Vec<EntityNode>>,
    ranked: &Vec<RankedPassage>,
    limit: usize,
    min_score: Score,
) -> (r: Hits<EntityNode>)
    ensures
        step::hits_view(r) == step::ordered_hits::<EntityNode>(
            step::all_items(lists@),
            found::scored_passages::<EntityNode>(
                found_nodes(lists@),
                found::ranked_views(ranked@),
                min_score,
            ),
            limit as nat,
        ),
{
    let all = flatten(lists);
    let order = distinct_uuids(&all);
    let found = pick(&all, &order);
    let (uuids, scores) = take_ranked(&found, ranked, min_score);
    make_hits(&all, &uuids, scores, limit)
}

/// Ends an ordering of entities by mentions, once their numbers are known.
pub fn finish_nodes_by_mentions(
    lists: &Vec<Vec<EntityNode>>,
    counts: &StringMap<u64>,
    limit: usize,
    min_score: Score,
) -> (r: Hits<EntityNode>)
    requires
        step::can_rank(lists@),
    ensures
        step::hits_view(r) == step::ordered_hits::<EntityNode>(
            step::all_items(lists@),
            rrf::high_enough(
                rerank::lowest_first(
                    rerank::mention_scores(
                        found::scored_uuids(step::fused_lists::<EntityNode>(lists@, zero_score())),
                        counts@,
                    ),
                ),
                min_score,
            ),
            limit as nat,
        ),
{
    let all = flatten(lists);
    let (order, _) = fuse(lists, Score { bits: ZERO_BITS });
    let (uuids, scores) = episode_mentions_rerank(&order, counts, min_score);
    make_hits(&all, &uuids, scores, limit)
}

/// Ends an ordering of entities by nearness, once it is known which are connected to the center.
pub fn finish_nodes_by_distance(
    lists: &Vec<Vec<EntityNode>>,
    center_node_uuid: &str,
    connected: &Vec<String>,
    limit: usize,
    min_score: Score,
) -> (r: Hits<EntityNode>)
    requires
        step::can_rank(lists@),
    ensures
        step::hits_view(r) == step::ordered_hits::<EntityNode>(
            step::all_items(lists@),
            rrf::high_enough(
                rerank::by_distance(
                    found::scored_uuids(step::fused_lists::<EntityNode>(lists@, min_score)),
                    center_node_uuid@,
                    rerank::string_set(connected@),
                ),
                min_score,
            ),
            limit as nat,
        ),
{
    let all = flatten(lists);
    let (order, _) = fuse(lists, min_score);
    let (uuids, scores) = node_distance_rerank(&order, center_node_uuid, connected, min_score);
    make_hits(&all, &uuids, scores, limit)
}

} // verus!
