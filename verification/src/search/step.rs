//! The steps of ordering results. What the graph or a model has to say is asked for in between.
use crate::errors::ChronicleError;
use crate::pipeline::dedup_index;
use crate::score::Score;
use crate::search::found::{
    self, distinct, flatten, limit_items, limit_scores, pick, uuid_lists, uuids_of_items, Found,
};
use crate::search::rrf::{self, rank_by_score, rrf};
use crate::text::{self, clone_strings, owned};
use vstd::prelude::*;

verus! {

/// Results and their scores.
#[derive(Debug)]
pub struct Hits<T> {
    pub items: Vec<T>,
    pub scores: Vec<Score>,
}

/// [`Hits`] as plain values.
pub struct HitsView<V> {
    pub items: Seq<V>,
    pub scores: Seq<Score>,
}

/// The view of hits.
pub open spec fn hits_view<T: Found>(h: Hits<T>) -> HitsView<T::V> {
    HitsView { items: found::item_views(h.items@), scores: h.scores@ }
}

/// The results with some identifiers and their scores, at most `limit` of each.
pub open spec fn hits<T: Found>(
    all: Seq<T::V>,
    uuids: Seq<Seq<char>>,
    scores: Seq<Score>,
    limit: nat,
) -> HitsView<T::V> {
    HitsView {
        items: found::limited(found::picked::<T>(all, uuids), limit),
        scores: found::limited(scores, limit),
    }
}

/// The results of an order of scored identifiers.
pub open spec fn ordered_hits<T: Found>(
    all: Seq<T::V>,
    order: Seq<(Seq<char>, Score)>,
    limit: nat,
) -> HitsView<T::V> {
    hits::<T>(all, found::scored_uuids(order), found::scored_scores(order), limit)
}

/// How the ordering of results stands.
#[derive(Debug)]
pub enum RerankStep<T> {
    /// It is over.
    Done(Hits<T>),
    /// The embeddings of results have to be fetched.
    NeedEmbeddings(Vec<String>),
    /// A model has to score passages.
    NeedRanking(Vec<String>),
    /// The graph has to say how many episodes mention the nodes.
    NeedMentionCounts(Vec<String>),
    /// The graph has to say which nodes are connected to the center.
    NeedConnections(Vec<String>),
}

/// [`RerankStep`] as plain values.
pub enum RerankStepView<V> {
    Done(HitsView<V>),
    NeedEmbeddings(Seq<Seq<char>>),
    NeedRanking(Seq<Seq<char>>),
    NeedMentionCounts(Seq<Seq<char>>),
    NeedConnections(Seq<Seq<char>>),
}

/// The view of a step.
pub open spec fn step_view<T: Found>(step: RerankStep<T>) -> RerankStepView<T::V> {
    match step {
        RerankStep::Done(h) => RerankStepView::Done(hits_view(h)),
        RerankStep::NeedEmbeddings(u) => RerankStepView::NeedEmbeddings(text::views(u@)),
        RerankStep::NeedRanking(u) => RerankStepView::NeedRanking(text::views(u@)),
        RerankStep::NeedMentionCounts(u) => RerankStepView::NeedMentionCounts(text::views(u@)),
        RerankStep::NeedConnections(u) => RerankStepView::NeedConnections(text::views(u@)),
    }
}

/// Holds where a result is a step.
pub open spec fn is_step<T: Found>(
    r: Result<RerankStep<T>, ChronicleError>,
    step: RerankStepView<T::V>,
) -> bool {
    r matches Ok(s) && step_view(s) == step
}

/// Holds where a result is the refusal of an input.
pub open spec fn is_refusal<T>(r: Result<T, ChronicleError>, message: Seq<char>) -> bool {
    r matches Err(ChronicleError::InvalidInput(m)) && m@ == message
}

/// Holds where lists are short enough to be ranked.
pub open spec fn can_rank<T>(lists: Seq<Vec<T>>) -> bool {
    forall|i: int| 0 <= i < lists.len() ==> (#[trigger] lists[i])@.len() < usize::MAX
}

/// The things that lists hold, one list after the other.
pub open spec fn all_items<T: Found>(lists: Seq<Vec<T>>) -> Seq<T::V> {
    found::in_order(found::list_views(lists))
}

/// The fusion of lists by reciprocal ranks.
pub open spec fn fused_lists<T: Found>(lists: Seq<Vec<T>>, min: Score) -> Seq<(Seq<char>, Score)> {
    rrf::fusion(found::id_lists::<T>(found::list_views(lists)), 1, min)
}

/// The different identifiers of lists, in order.
pub open spec fn uuid_order<T: Found>(lists: Seq<Vec<T>>) -> Seq<Seq<char>> {
    dedup_index::first_seen(found::ids::<T>(all_items(lists)))
}

/// The message where a model is to score passages and there is none.
pub const EDGE_CROSS_ENCODER_MISSING: &'static str = "edge cross_encoder reranker requested but no CrossEncoderClient was provided";

/// The message where a model is to score passages and there is none.
pub const NODE_CROSS_ENCODER_MISSING: &'static str = "node cross_encoder reranker requested but no CrossEncoderClient was provided";

/// The message where a model is to score passages and there is none.
pub const EPISODE_CROSS_ENCODER_MISSING: &'static str = "episode cross_encoder reranker requested but no CrossEncoderClient was provided";

/// The message where a model is to score passages and there is none.
pub const COMMUNITY_CROSS_ENCODER_MISSING: &'static str = "community cross_encoder reranker requested but no CrossEncoderClient was provided";

/// The message where nearness to a node is asked for and no node is given.
pub const CENTER_MISSING: &'static str = "No center node provided for Node Distance reranker";

/// A method that is to be run.
#[derive(Debug)]
pub enum SearchCall {
    /// A search by words.
    Fulltext { limit: usize },
    /// A search by similarity. The least similarity is given as the bits of a single-precision
    /// number.
    Similarity { limit: usize, min_score: u32 },
    /// A walk of the graph from nodes on.
    Walk { origins: Vec<String>, max_depth: usize, limit: usize },
}

/// [`SearchCall`] as plain values.
pub enum SearchCallView {
    Fulltext { limit: int },
    Similarity { limit: int, min_score: u32 },
    Walk { origins: Seq<Seq<char>>, max_depth: usize, limit: int },
}

impl View for SearchCall {
    type V = SearchCallView;

    open spec fn view(&self) -> SearchCallView {
        match self {
            SearchCall::Fulltext { limit } => SearchCallView::Fulltext { limit: *limit as int },
            SearchCall::Similarity { limit, min_score } => SearchCallView::Similarity {
                limit: *limit as int,
                min_score: *min_score,
            },
            SearchCall::Walk { origins, max_depth, limit } => SearchCallView::Walk {
                origins: text::views(origins@),
                max_depth: *max_depth,
                limit: *limit as int,
            },
        }
    }
}

/// Which methods a search runs, and whether the walk of the graph is run once more from what the
/// others found.
#[derive(Clone, Copy, Debug, PartialEq, Eq, Structural)]
pub struct SearchPlan {
    pub bm25: bool,
    pub cosine: bool,
    pub bfs: bool,
    pub self_seed: bool,
}

/// One if a method is run, and else none.
pub open spec fn runs(method: bool) -> nat {
    if method {
        1
    } else {
        0
    }
}

/// The method that is to be run once others have: first by words, then by similarity, then the
/// walk from the nodes that are given, then the walk from what was found. Each looks for twice as
/// many candidates as results are wanted.
pub open spec fn next_call(
    plan: SearchPlan,
    done: nat,
    given: Seq<Seq<char>>,
    found: Seq<Seq<char>>,
    sim_min_score: u32,
    max_depth: usize,
    limit: nat,
) -> Option<SearchCallView> {
    let limit = 2 * limit as int;
    let words = runs(plan.bm25);
    let similar = words + runs(plan.cosine);
    let walks = similar + runs(plan.bfs);
    if done < words {
        Some(SearchCallView::Fulltext { limit })
    } else if done < similar {
        Some(SearchCallView::Similarity { limit, min_score: sim_min_score })
    } else if done < walks {
        Some(SearchCallView::Walk { origins: given, max_depth, limit })
    } else if done < walks + runs(plan.self_seed) {
        Some(SearchCallView::Walk { origins: found, max_depth, limit })
    } else {
        None
    }
}

/// The view of an optional call.
pub open spec fn call_view(c: Option<SearchCall>) -> Option<SearchCallView> {
    match c {
        Some(v) => Some(v@),
        None => None,
    }
}

/// The nodes that a walk starts from where some are given.
pub open spec fn given_origins(origins: Option<Vec<String>>) -> Seq<Seq<char>> {
    match origins {
        Some(o) => text::views(o@),
        None => Seq::empty(),
    }
}

fn count(method: bool) -> (r: usize)
    ensures
        r == runs(method),
{
    if method {
        1
    } else {
        0
    }
}

/// The method that is to be run once others have.
pub(crate) fn choose_call(
    plan: SearchPlan,
    done: usize,
    given: &Option<Vec<String>>,
    found: Vec<String>,
    sim_min_score: u32,
    max_depth: usize,
    limit: usize,
) -> (r: Option<SearchCall>)
    requires
        2 * limit <= usize::MAX,
    ensures
        call_view(r) == next_call(
            plan,
            done as nat,
            given_origins(*given),
            text::views(found@),
            sim_min_score,
            max_depth,
            limit as nat,
        ),
{
    let limit = candidate_limit(limit);
    let words = count(plan.bm25);
    let similar = words + count(plan.cosine);
    let walks = similar + count(plan.bfs);
    if done < words {
        Some(SearchCall::Fulltext { limit })
    } else if done < similar {
        Some(SearchCall::Similarity { limit, min_score: sim_min_score })
    } else if done < walks {
        let origins = match given {
            Some(o) => clone_strings(o),
            None => Vec::new(),
        };
        assert(text::views(origins@) =~= given_origins(*given));
        Some(SearchCall::Walk { origins, max_depth, limit })
    } else if done < walks + count(plan.self_seed) {
        Some(SearchCall::Walk { origins: found, max_depth, limit })
    } else {
        None
    }
}

/// Every search ends: once as many lists have come back as there are methods, no method is left,
/// and there are at most four.
pub proof fn law_methods_run_out(
    plan: SearchPlan,
    done: nat,
    given: Seq<Seq<char>>,
    found: Seq<Seq<char>>,
    sim_min_score: u32,
    max_depth: usize,
    limit: nat,
)
    requires
        done >= 4,
    ensures
        next_call(plan, done, given, found, sim_min_score, max_depth, limit) is None,
{
}

/// How many candidates a method looks for: twice as many as are wanted.
pub fn candidate_limit(limit: usize) -> (r: usize)
    requires
        2 * limit <= usize::MAX,
    ensures
        r == 2 * limit,
{
    2 * limit
}

/// Fuses lists by reciprocal ranks.
pub fn fuse<T: Found>(lists: &Vec<Vec<T>>, min: Score) -> (r: (Vec<String>, Vec<Score>))
    requires
        can_rank(lists@),
    ensures
        text::views(r.0@) == found::scored_uuids(fused_lists::<T>(lists@, min)),
        r.1@ == found::scored_scores(fused_lists::<T>(lists@, min)),
{
    let ranked = uuid_lists(lists);
    proof {
        let seen = found::string_list_views(ranked@);
        let goal = found::id_lists::<T>(found::list_views(lists@));
        assert(seen.len() == ranked@.len() && goal.len() == lists@.len());
        assert forall|i: int| 0 <= i < ranked@.len() implies (#[trigger] ranked@[i])@.len() + 1
            <= usize::MAX by {
            assert(seen[i] == text::views(ranked@[i]@));
            assert(goal[i] == found::ids::<T>(found::item_views(lists@[i]@)));
            assert(text::views(ranked@[i]@).len() == ranked@[i]@.len());
            assert(found::ids::<T>(found::item_views(lists@[i]@)).len() == lists@[i]@.len());
            assert(lists@[i]@.len() < usize::MAX);
        }
    }
    rrf(ranked.as_slice(), 1, min)
}

/// The different identifiers of lists, in order.
pub fn distinct_uuids<T: Found>(items: &Vec<T>) -> (r: Vec<String>)
    ensures
        text::views(r@) == dedup_index::first_seen(found::ids::<T>(found::item_views(items@))),
{
    let all = uuids_of_items(items);
    distinct(&all)
}

/// The results with some identifiers and their scores, at most `limit` of each.
pub fn make_hits<T: Found>(
    items: &Vec<T>,
    uuids: &Vec<String>,
    scores: Vec<Score>,
    limit: usize,
) -> (r: Hits<T>)
    ensures
        hits_view(r) == hits::<T>(
            found::item_views(items@),
            text::views(uuids@),
            scores@,
            limit as nat,
        ),
{
    let found = pick(items, uuids);
    Hits { items: limit_items(found, limit), scores: limit_scores(scores, limit) }
}

/// The refusal of an input.
pub(crate) fn refuse<T>(message: &str) -> (r: Result<T, ChronicleError>)
    ensures
        is_refusal(r, message@),
{
    Err(ChronicleError::InvalidInput(owned(message)))
}

/// Ends an ordering by relevance and diversity, once each candidate has its score.
pub fn finish_by_scores<T: Found>(
    lists: &Vec<Vec<T>>,
    uuids: &Vec<String>,
    scores: &Vec<Score>,
    limit: usize,
    min_score: Score,
) -> (r: Hits<T>)
    requires
        uuids@.len() == scores@.len(),
    ensures
        hits_view(r) == ordered_hits::<T>(
            all_items(lists@),
            rrf::high_enough(
                rrf::best_first(found::scored(text::views(uuids@), scores@)),
                min_score,
            ),
            limit as nat,
        ),
{
    let all = flatten(lists);
    let (order, kept) = rank_by_score(uuids, scores, min_score);
    make_hits(&all, &order, kept, limit)
}

/// Among the results of a search there are never more than were asked for, and every one of them
/// is among what the methods found and goes by one of the identifiers that were chosen.
pub proof fn law_hits_are_among_the_candidates<T: Found>(
    all: Seq<T::V>,
    uuids: Seq<Seq<char>>,
    scores: Seq<Score>,
    limit: nat,
)
    ensures
        ({
            let r = hits::<T>(all, uuids, scores, limit);
            &&& r.items.len() <= limit
            &&& r.scores.len() <= limit
            &&& forall|i: int|
                0 <= i < r.items.len() ==> all.contains(#[trigger] r.items[i]) && uuids.contains(
                    T::id(r.items[i]),
                )
        }),
{
    lemma_picked::<T>(all, uuids);
    let picked = found::picked::<T>(all, uuids);
    let r = hits::<T>(all, uuids, scores, limit);
    assert forall|i: int| 0 <= i < r.items.len() implies all.contains(#[trigger] r.items[i])
        && uuids.contains(T::id(r.items[i])) by {
        assert(r.items[i] == picked[i]);
    }
}

proof fn lemma_picked<T: Found>(all: Seq<T::V>, uuids: Seq<Seq<char>>)
    ensures
        forall|i: int|
            0 <= i < found::picked::<T>(all, uuids).len() ==> all.contains(
                #[trigger] found::picked::<T>(all, uuids)[i],
            ) && uuids.contains(T::id(found::picked::<T>(all, uuids)[i])),
    decreases uuids.len(),
{
    if uuids.len() > 0 {
        let init = uuids.drop_last();
        lemma_picked::<T>(all, init);
        lemma_last_with::<T>(all, uuids.last());
        let before = found::picked::<T>(all, init);
        let after = found::picked::<T>(all, uuids);
        assert forall|i: int| 0 <= i < after.len() implies all.contains(#[trigger] after[i])
            && uuids.contains(T::id(after[i])) by {
            if i < before.len() {
                assert(after[i] == before[i]);
                let k = choose|k: int| 0 <= k < init.len() && init[k] == T::id(before[i]);
                assert(uuids[k] == T::id(after[i]));
            } else {
                assert(uuids[uuids.len() - 1] == T::id(after[i]));
            }
        }
    }
}

proof fn lemma_last_with<T: Found>(items: Seq<T::V>, uuid: Seq<char>)
    ensures
        found::last_with::<T>(items, uuid) matches Some(v) ==> items.contains(v) && T::id(v) == uuid,
    decreases items.len(),
{
    if items.len() > 0 {
        if T::id(items.last()) == uuid {
            assert(items[items.len() - 1] == items.last());
        } else {
            let init = items.drop_last();
            lemma_last_with::<T>(init, uuid);
            match found::last_with::<T>(init, uuid) {
                Some(v) => {
                    let k = choose|k: int| 0 <= k < init.len() && init[k] == v;
                    assert(items[k] == v);
                },
                None => {},
            }
        }
    }
}

} // verus!
