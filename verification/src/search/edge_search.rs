//! The search for facts.
use crate::errors::ChronicleError;
use crate::pipeline::dedup_index;
use crate::score::Score;
use crate::search::config::{EdgeReranker, EdgeSearchConfig, EdgeSearchMethod, ScopeView};
use crate::search::found::{
    self, distinct, distinct_passages, flatten, limit_items, limit_scores, pick, take_ranked,
    RankedPassage,
};
use crate::search::rerank::{self, node_distance_rerank, without_center};
use crate::search::rrf;
use crate::search::step::{
    self, choose_call, distinct_uuids, fuse, make_hits, refuse, CENTER_MISSING,
    EDGE_CROSS_ENCODER_MISSING, Hits, HitsView, RerankStep, RerankStepView, SearchCall, SearchPlan,
};
use crate::sorting::{self, stable_order};
use crate::text::{self, str_eq};
use crate::types::edge::{EntityEdge, EntityEdgeView};
use vstd::prelude::*;

verus! {

/// The plan of a search for facts. The walk is run once more from what was found where no nodes to
/// start from are given.
pub open spec fn edge_plan(methods: Seq<EdgeSearchMethod>, has_origins: bool) -> SearchPlan {
    let bfs = methods.contains(EdgeSearchMethod::BreadthFirstSearch);
    SearchPlan {
        bm25: methods.contains(EdgeSearchMethod::Bm25),
        cosine: methods.contains(EdgeSearchMethod::CosineSimilarity),
        bfs,
        self_seed: bfs && !has_origins,
    }
}

/// The method that a search for facts is to run, given the lists that the methods before it found;
/// none once all have run.
pub fn next_edge_call(
    config: &EdgeSearchConfig,
    bfs_origin_node_uuids: &Option<Vec<String>>,
    lists: &Vec<Vec<EntityEdge>>,
    limit: usize,
) -> (r: Option<SearchCall>)
    requires
        2 * limit <= usize::MAX,
    ensures
        step::call_view(r) == step::next_call(
            edge_plan(config@.search_methods, bfs_origin_node_uuids is Some),
            lists@.len(),
            step::given_origins(*bfs_origin_node_uuids),
            sources(step::all_items(lists@)),
            config@.sim_min_score,
            config@.bfs_max_depth,
            limit as nat,
        ),
{
    let bfs = config.uses(EdgeSearchMethod::BreadthFirstSearch);
    let plan = SearchPlan {
        bm25: config.uses(EdgeSearchMethod::Bm25),
        cosine: config.uses(EdgeSearchMethod::CosineSimilarity),
        bfs,
        self_seed: bfs && bfs_origin_node_uuids.is_none(),
    };
    choose_call(
        plan,
        lists.len(),
        bfs_origin_node_uuids,
        edge_origins(lists),
        config.sim_min_score,
        config.bfs_max_depth,
        limit,
    )
}

/// Whether a search for facts needs the embedding of the query.
pub open spec fn edges_need_embedding(config: ScopeView<EdgeSearchMethod, EdgeReranker>) -> bool {
    config.search_methods.contains(EdgeSearchMethod::CosineSimilarity) || config.reranker
        == EdgeReranker::Mmr
}

/// Tells whether a search for facts needs the embedding of the query.
pub fn edge_search_needs_embedding(config: &EdgeSearchConfig) -> (r: bool)
    ensures
        r == edges_need_embedding(config@),
{
    config.uses(EdgeSearchMethod::CosineSimilarity) || config.reranker == EdgeReranker::Mmr
}

/// The sources of facts, in order.
pub open spec fn sources(edges: Seq<EntityEdgeView>) -> Seq<Seq<char>> {
    edges.map_values(|e: EntityEdgeView| e.source_node_uuid)
}

fn source_uuids(edges: &Vec<EntityEdge>) -> (r: Vec<String>)
    ensures
        text::views(r@) == sources(found::item_views(edges@)),
{
    let mut out: Vec<String> = Vec::new();
    let mut i: usize = 0;
    while i < edges.len()
        invariant
            i <= edges@.len(),
            out@.len() == i,
            forall|j: int| 0 <= j < i ==> (#[trigger] out@[j])@ == edges@[j]@.source_node_uuid,
        decreases edges.len() - i,
    {
        out.push(edges[i].source_node_uuid.clone());
        i += 1;
    }
    assert(text::views(out@) =~= sources(found::item_views(edges@)));
    out
}

/// Where the walk of the graph starts once more: at the sources of the facts that were found.
pub fn edge_origins(lists: &Vec<Vec<EntityEdge>>) -> (r: Vec<String>)
    ensures
        text::views(r@) == sources(step::all_items(lists@)),
{
    let all = flatten(lists);
    source_uuids(&all)
}

/// The keys by which facts with more episodes come first.
pub open spec fn episode_keys(edges: Seq<EntityEdgeView>) -> Seq<int> {
    edges.map_values(|e: EntityEdgeView| -(e.episodes.len() as int))
}

/// Facts by falling numbers of episodes; those with equal numbers keep their order.
pub open spec fn most_mentioned(edges: Seq<EntityEdgeView>) -> Seq<EntityEdgeView> {
    sorting::sorted_by(edges, episode_keys(edges))
}

fn sort_by_mentions(edges: &Vec<EntityEdge>) -> (r: Vec<EntityEdge>)
    ensures
        found::item_views(r@) == most_mentioned(found::item_views(edges@)),
{
    let ghost all = found::item_views(edges@);
    let mut keys: Vec<i128> = Vec::new();
    let mut i: usize = 0;
    while i < edges.len()
        invariant
            i <= edges@.len(),
            keys@.len() == i,
            forall|j: int|
                0 <= j < i ==> (#[trigger] keys@[j]) == -(edges@[j]@.episodes.len() as int),
        decreases edges.len() - i,
    {
        assert(edges@[i as int]@.episodes.len() == edges@[i as int].episodes@.len());
        keys.push(-(edges[i].episodes.len() as i128));
        i += 1;
    }
    assert(sorting::key_values(keys@) =~= episode_keys(all));
    let order = stable_order(&keys);
    let mut out: Vec<EntityEdge> = Vec::new();
    let mut k: usize = 0;
    while k < order.len()
        invariant
            k <= order@.len(),
            order@.len() == edges@.len(),
            forall|j: int| 0 <= j < order@.len() ==> (#[trigger] order@[j]) < edges@.len(),
            out@.len() == k,
            forall|j: int| 0 <= j < k ==> (#[trigger] out@[j])@ == edges@[order@[j] as int]@,
        decreases order.len() - k,
    {
        out.push(edges[order[k]].clone());
        k += 1;
    }
    proof {
        let chosen = choose|o: Seq<usize>| sorting::is_stable_order(episode_keys(all), o);
        sorting::lemma_stable_order_unique(episode_keys(all), order@, chosen);
        assert(found::item_views(out@) =~= most_mentioned(all));
    }
    out
}

/// The facts that a model is to score: the first `limit` different ones.
pub open spec fn edges_to_score(lists: Seq<Vec<EntityEdge>>, limit: nat) -> Seq<EntityEdgeView> {
    found::picked::<EntityEdge>(
        step::all_items(lists),
        found::limited(step::uuid_order::<EntityEdge>(lists), limit),
    )
}

/// The facts in the order in which their rankings are fused.
pub open spec fn fused_edges(lists: Seq<Vec<EntityEdge>>, min: Score) -> Seq<EntityEdgeView> {
    found::picked::<EntityEdge>(
        step::all_items(lists),
        found::scored_uuids(step::fused_lists::<EntityEdge>(lists, min)),
    )
}

/// The step with which the ordering of facts begins.
pub open spec fn edge_rerank_step(
    lists: Seq<Vec<EntityEdge>>,
    reranker: EdgeReranker,
    center: Option<Seq<char>>,
    limit: nat,
    min: Score,
) -> RerankStepView<EntityEdgeView> {
    match reranker {
        EdgeReranker::Rrf => RerankStepView::Done(
            step::ordered_hits::<EntityEdge>(
                step::all_items(lists),
                step::fused_lists::<EntityEdge>(lists, min),
                limit,
            ),
        ),
        EdgeReranker::EpisodeMentions => RerankStepView::Done(
            HitsView {
                items: found::limited(most_mentioned(fused_edges(lists, min)), limit),
                scores: found::limited(
                    found::scored_scores(step::fused_lists::<EntityEdge>(lists, min)),
                    limit,
                ),
            },
        ),
        EdgeReranker::Mmr => RerankStepView::NeedEmbeddings(step::uuid_order::<EntityEdge>(lists)),
        EdgeReranker::CrossEncoder => RerankStepView::NeedRanking(
            dedup_index::first_seen(found::passages::<EntityEdge>(edges_to_score(lists, limit))),
        ),
        EdgeReranker::NodeDistance => RerankStepView::NeedConnections(
            rerank::others(dedup_index::first_seen(sources(fused_edges(lists, min))), center->0),
        ),
    }
}

/// The view of an optional text.
pub open spec fn opt_str(s: Option<&str>) -> Option<Seq<char>> {
    match s {
        Some(t) => Some(t@),
        None => None,
    }
}

/// The first `limit` different facts.
fn first_edges(all: &Vec<EntityEdge>, limit: usize) -> (r: Vec<EntityEdge>)
    ensures
        found::item_views(r@) == found::picked::<EntityEdge>(
            found::item_views(all@),
            found::limited(
                dedup_index::first_seen(found::ids::<EntityEdge>(found::item_views(all@))),
                limit as nat,
            ),
        ),
{
    let mut order = distinct_uuids(all);
    let ghost full = text::views(order@);
    if order.len() > limit {
        order.truncate(limit);
        assert(text::views(order@) =~= full.take(limit as int));
    }
    pick(all, &order)
}

/// Begins the ordering of facts that the methods found, each list by one method. Scoring by a model
/// needs one, and nearness needs a center.
pub fn begin_edge_rerank(
    lists: &Vec<Vec<EntityEdge>>,
    reranker: EdgeReranker,
    has_cross_encoder: bool,
    center_node_uuid: Option<&str>,
    limit: usize,
    min_score: Score,
) -> (r: Result<RerankStep<EntityEdge>, ChronicleError>)
    requires
        step::can_rank(lists@),
    ensures
        if reranker == EdgeReranker::CrossEncoder && !has_cross_encoder {
            step::is_refusal(r, EDGE_CROSS_ENCODER_MISSING@)
        } else if reranker == EdgeReranker::NodeDistance && center_node_uuid is None {
            step::is_refusal(r, CENTER_MISSING@)
        } else {
            step::is_step(
                r,
                edge_rerank_step(
                    lists@,
                    reranker,
                    opt_str(center_node_uuid),
                    limit as nat,
                    min_score,
                ),
            )
        },
{
    let all = flatten(lists);
    match reranker {
        EdgeReranker::Rrf => {
            let (uuids, scores) = fuse(lists, min_score);
            Ok(RerankStep::Done(make_hits(&all, &uuids, scores, limit)))
        },
        EdgeReranker::EpisodeMentions => {
            let (uuids, scores) = fuse(lists, min_score);
            let found = pick(&all, &uuids);
            let sorted = sort_by_mentions(&found);
            Ok(
                RerankStep::Done(
                    Hits { items: limit_items(sorted, limit), scores: limit_scores(scores, limit) },
                ),
            )
        },
        EdgeReranker::Mmr => Ok(RerankStep::NeedEmbeddings(distinct_uuids(&all))),
        EdgeReranker::CrossEncoder => {
            if !has_cross_encoder {
                return refuse(EDGE_CROSS_ENCODER_MISSING);
            }
            let first = first_edges(&all, limit);
            Ok(RerankStep::NeedRanking(distinct_passages(&first)))
        },
        EdgeReranker::NodeDistance => match center_node_uuid {
            Some(center) => {
                let (uuids, _) = fuse(lists, min_score);
                let found = pick(&all, &uuids);
                let from = distinct(&source_uuids(&found));
                Ok(RerankStep::NeedConnections(without_center(&from, center)))
            },
            None => refuse(CENTER_MISSING),
        },
    }
}

/// Ends an ordering of facts by a model, once it has scored their texts.
pub fn finish_edges_by_ranking(
    lists: &Vec<Vec<EntityEdge>>,
    ranked: &Vec<RankedPassage>,
    limit: usize,
    min_score: Score,
) -> (r: Hits<EntityEdge>)
    ensures
        step::hits_view(r) == step::ordered_hits::<EntityEdge>(
            step::all_items(lists@),
            found::scored_passages::<EntityEdge>(
                edges_to_score(lists@, limit as nat),
                found::ranked_views(ranked@),
                min_score,
            ),
            limit as nat,
        ),
{
    let all = flatten(lists);
    let first = first_edges(&all, limit);
    let (uuids, scores) = take_ranked(&first, ranked, min_score);
    make_hits(&all, &uuids, scores, limit)
}

/// The facts with a source, in order.
pub open spec fn edges_from(edges: Seq<EntityEdgeView>, source: Seq<char>) -> Seq<EntityEdgeView>
    decreases edges.len(),
{
    if edges.len() == 0 {
        Seq::empty()
    } else if edges.last().source_node_uuid == source {
        edges_from(edges.drop_last(), source).push(edges.last())
    } else {
        edges_from(edges.drop_last(), source)
    }
}

/// The facts by their sources, in the order of these.
pub open spec fn grouped_edges(edges: Seq<EntityEdgeView>, nodes: Seq<Seq<char>>) -> Seq<
    EntityEdgeView,
>
    decreases nodes.len(),
{
    if nodes.len() == 0 {
        Seq::empty()
    } else {
        grouped_edges(edges, nodes.drop_last()) + edges_from(edges, nodes.last())
    }
}

fn group_edges(edges: &Vec<EntityEdge>, nodes: &Vec<String>) -> (r: Vec<EntityEdge>)
    ensures
        found::item_views(r@) == grouped_edges(found::item_views(edges@), text::views(nodes@)),
{
    let ghost all = found::item_views(edges@);
    let ghost order = text::views(nodes@);
    let mut out: Vec<EntityEdge> = Vec::new();
    let mut i: usize = 0;
    assert(found::item_views(out@) =~= grouped_edges(all, order.take(0)));
    while i < nodes.len()
        invariant
            i <= nodes@.len(),
            all == found::item_views(edges@),
            order == text::views(nodes@),
            found::item_views(out@) == grouped_edges(all, order.take(i as int)),
        decreases nodes.len() - i,
    {
        let ghost done = grouped_edges(all, order.take(i as int));
        let ghost source = nodes@[i as int]@;
        proof {
            assert(order.take(i as int + 1).drop_last() =~= order.take(i as int));
            assert(order.take(i as int + 1).last() == source);
            assert(done + edges_from(all.take(0), source) =~= done);
        }
        let mut k: usize = 0;
        while k < edges.len()
            invariant
                k <= edges@.len(),
                i < nodes@.len(),
                source == nodes@[i as int]@,
                all == found::item_views(edges@),
                found::item_views(out@) == done + edges_from(all.take(k as int), source),
            decreases edges.len() - k,
        {
            proof {
                assert(all.take(k as int + 1).drop_last() =~= all.take(k as int));
                assert(all.take(k as int + 1).last() == edges@[k as int]@);
            }
            if str_eq(edges[k].source_node_uuid.as_str(), nodes[i].as_str()) {
                let ghost before = out@;
                out.push(edges[k].clone());
                assert(
                    found::item_views(out@) =~= found::item_views(before).push(edges@[k as int]@)
                );
                assert(
                    found::item_views(out@) =~= done + edges_from(all.take(k as int + 1), source)
                );
            }
            k += 1;
        }
        assert(all.take(all.len() as int) =~= all);
        i += 1;
    }
    assert(order.take(order.len() as int) =~= order);
    out
}

/// The order of the sources of facts by nearness to a center.
pub open spec fn source_distances(
    lists: Seq<Vec<EntityEdge>>,
    center: Seq<char>,
    connected: Set<Seq<char>>,
    min: Score,
) -> Seq<(Seq<char>, Score)> {
    rrf::high_enough(
        rerank::by_distance(
            dedup_index::first_seen(sources(fused_edges(lists, min))),
            center,
            connected,
        ),
        min,
    )
}

/// Ends an ordering of facts by nearness, once it is known which sources are connected to the
/// center: the facts come in the order of their sources. The scores are those of the sources, one
/// for each source.
pub fn finish_edges_by_distance(
    lists: &Vec<Vec<EntityEdge>>,
    center_node_uuid: &str,
    connected: &Vec<String>,
    limit: usize,
    min_score: Score,
) -> (r: Hits<EntityEdge>)
    requires
        step::can_rank(lists@),
    ensures
        step::hits_view(r) == (HitsView {
            items: found::limited(
                grouped_edges(
                    fused_edges(lists@, min_score),
                    found::scored_uuids(
                        source_distances(
                            lists@,
                            center_node_uuid@,
                            rerank::string_set(connected@),
                            min_score,
                        ),
                    ),
                ),
                limit as nat,
            ),
            scores: found::limited(
                found::scored_scores(
                    source_distances(
                        lists@,
                        center_node_uuid@,
                        rerank::string_set(connected@),
                        min_score,
                    ),
                ),
                limit as nat,
            ),
        }),
{
    let all = flatten(lists);
    let (uuids, _) = fuse(lists, min_score);
    let found = pick(&all, &uuids);
    let from = distinct(&source_uuids(&found));
    let (nodes, scores) = node_distance_rerank(&from, center_node_uuid, connected, min_score);
    let grouped = group_edges(&found, &nodes);
    Hits { items: limit_items(grouped, limit), scores: limit_scores(scores, limit) }
}

} // verus!
