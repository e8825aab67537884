//! Orders of results that come from the graph.
use crate::collections::StringMap;
use crate::double::{self, from_count};
use crate::pipeline::dedup_index::holds;
use crate::score::{INFINITY_BITS, ONE_BITS, Score, TEN_BITS, ZERO_BITS};
use crate::search::found;
use crate::search::rrf;
use crate::sorting::{self, stable_order};
use crate::text::{self, owned, str_eq};
use crate::types::Embedding;
use vstd::prelude::*;

verus! {

/// The identifiers that are not one.
pub open spec fn others(uuids: Seq<Seq<char>>, one: Seq<char>) -> Seq<Seq<char>>
    decreases uuids.len(),
{
    if uuids.len() == 0 {
        Seq::empty()
    } else if uuids.last() == one {
        others(uuids.drop_last(), one)
    } else {
        others(uuids.drop_last(), one).push(uuids.last())
    }
}

/// The identifiers that are not one: those whose distance to it is to be asked for.
pub fn without_center(node_uuids: &Vec<String>, center_node_uuid: &str) -> (r: Vec<String>)
    ensures
        text::views(r@) == others(text::views(node_uuids@), center_node_uuid@),
{
    let ghost all = text::views(node_uuids@);
    let mut out: Vec<String> = Vec::new();
    let mut i: usize = 0;
    assert(text::views(out@) =~= others(all.take(0), center_node_uuid@));
    while i < node_uuids.len()
        invariant
            i <= node_uuids@.len(),
            all == text::views(node_uuids@),
            text::views(out@) == others(all.take(i as int), center_node_uuid@),
        decreases node_uuids.len() - i,
    {
        proof {
            assert(all.take(i as int + 1).drop_last() =~= all.take(i as int));
            assert(all.take(i as int + 1).last() == node_uuids@[i as int]@);
        }
        if !str_eq(node_uuids[i].as_str(), center_node_uuid) {
            let ghost before = out@;
            out.push(node_uuids[i].clone());
            assert(text::views(out@) =~= text::views(before).push(node_uuids@[i as int]@));
        }
        i += 1;
    }
    assert(all.take(all.len() as int) =~= all);
    out
}

/// The identifiers that are, or are not, in a set, in order.
pub open spec fn among(uuids: Seq<Seq<char>>, set: Set<Seq<char>>, inside: bool) -> Seq<Seq<char>>
    decreases uuids.len(),
{
    if uuids.len() == 0 {
        Seq::empty()
    } else if set.contains(uuids.last()) == inside {
        among(uuids.drop_last(), set, inside).push(uuids.last())
    } else {
        among(uuids.drop_last(), set, inside)
    }
}

/// Identifiers with the same score.
pub open spec fn all_scored(uuids: Seq<Seq<char>>, score: Score) -> Seq<(Seq<char>, Score)> {
    uuids.map_values(|u: Seq<char>| (u, score))
}

/// Nodes by nearness to a center: the center itself, if it is among them, with a score of ten;
/// those connected to it with a score of one; the others with a score of zero. Within these
/// groups they keep their order.
pub open spec fn by_distance(
    uuids: Seq<Seq<char>>,
    center: Seq<char>,
    connected: Set<Seq<char>>,
) -> Seq<(Seq<char>, Score)> {
    let rest = others(uuids, center);
    (if uuids.contains(center) {
        seq![(center, (Score { bits: TEN_BITS }))]
    } else {
        Seq::empty()
    }) + all_scored(among(rest, connected, true), Score { bits: ONE_BITS }) + all_scored(
        among(rest, connected, false),
        Score { bits: ZERO_BITS },
    )
}

/// The strings of a list as a set.
pub open spec fn string_set(strings: Seq<String>) -> Set<Seq<char>> {
    text::views(strings).to_set()
}

fn push_scored(
    uuids: &mut Vec<String>,
    scores: &mut Vec<Score>,
    uuid: &str,
    score: Score,
    min: Score,
    Ghost(done): Ghost<Seq<(Seq<char>, Score)>>,
)
    requires
        text::views(old(uuids)@) == found::scored_uuids(rrf::high_enough(done, min)),
        old(scores)@ == found::scored_scores(rrf::high_enough(done, min)),
    ensures
        text::views(final(uuids)@) == found::scored_uuids(
            rrf::high_enough(done.push((uuid@, score)), min),
        ),
        final(scores)@ == found::scored_scores(rrf::high_enough(done.push((uuid@, score)), min)),
{
    let ghost kept = rrf::high_enough(done, min);
    let ghost pair = (uuid@, score);
    proof {
        assert(done.push(pair).drop_last() =~= done);
    }
    if score.is_at_least(&min) {
        let ghost before = uuids@;
        uuids.push(owned(uuid));
        scores.push(score);
        proof {
            assert(text::views(uuids@) =~= text::views(before).push(pair.0));
            assert(found::scored_uuids(kept.push(pair)) =~= found::scored_uuids(kept).push(pair.0));
            assert(
                found::scored_scores(kept.push(pair)) =~= found::scored_scores(kept).push(pair.1)
            );
        }
    }
}

/// Orders nodes by nearness to a center, given which of them are connected to it, and leaves those
/// whose score is high enough.
pub fn node_distance_rerank(
    node_uuids: &Vec<String>,
    center_node_uuid: &str,
    connected: &Vec<String>,
    min_score: Score,
) -> (r: (Vec<String>, Vec<Score>))
    ensures
        text::views(r.0@) == found::scored_uuids(
            rrf::high_enough(
                by_distance(text::views(node_uuids@), center_node_uuid@, string_set(connected@)),
                min_score,
            ),
        ),
        r.1@ == found::scored_scores(
            rrf::high_enough(
                by_distance(text::views(node_uuids@), center_node_uuid@, string_set(connected@)),
                min_score,
            ),
        ),
{
    let ghost center = center_node_uuid@;
    let ghost near = string_set(connected@);
    let rest = without_center(node_uuids, center_node_uuid);
    let ghost all = text::views(rest@);
    let mut uuids: Vec<String> = Vec::new();
    let mut scores: Vec<Score> = Vec::new();
    let ghost mut done: Seq<(Seq<char>, Score)> = Seq::empty();
    proof {
        assert(text::views(uuids@) =~= found::scored_uuids(rrf::high_enough(done, min_score)));
        assert(scores@ =~= found::scored_scores(rrf::high_enough(done, min_score)));
    }
    if holds(node_uuids, center_node_uuid) {
        let top = Score { bits: TEN_BITS };
        push_scored(&mut uuids, &mut scores, center_node_uuid, top, min_score, Ghost(done));
        proof {
            done = done.push((center, top));
            assert(done =~= seq![(center, top)]);
        }
    }
    let ghost head = done;
    let mut i: usize = 0;
    assert(head + all_scored(among(all.take(0), near, true), Score { bits: ONE_BITS }) =~= head);
    while i < rest.len()
        invariant
            i <= rest@.len(),
            all == text::views(rest@),
            near == string_set(connected@),
            done == head + all_scored(
                among(all.take(i as int), near, true),
                Score { bits: ONE_BITS },
            ),
            text::views(uuids@) == found::scored_uuids(rrf::high_enough(done, min_score)),
            scores@ == found::scored_scores(rrf::high_enough(done, min_score)),
        decreases rest.len() - i,
    {
        proof {
            assert(all.take(i as int + 1).drop_last() =~= all.take(i as int));
            assert(all.take(i as int + 1).last() == rest@[i as int]@);
        }
        if holds(connected, rest[i].as_str()) {
            let one = Score { bits: ONE_BITS };
            push_scored(&mut uuids, &mut scores, rest[i].as_str(), one, min_score, Ghost(done));
            proof {
                let before = among(all.take(i as int), near, true);
                let u = rest@[i as int]@;
                done = done.push((u, one));
                assert(all_scored(before.push(u), one) =~= all_scored(before, one).push((u, one)));
                assert(done =~= head + all_scored(before.push(u), one));
            }
        }
        i += 1;
    }
    assert(all.take(all.len() as int) =~= all);
    let ghost nearer = done;
    let mut k: usize = 0;
    assert(nearer + all_scored(among(all.take(0), near, false), Score { bits: ZERO_BITS })
        =~= nearer);
    while k < rest.len()
        invariant
            k <= rest@.len(),
            all == text::views(rest@),
            near == string_set(connected@),
            done == nearer + all_scored(
                among(all.take(k as int), near, false),
                Score { bits: ZERO_BITS },
            ),
            text::views(uuids@) == found::scored_uuids(rrf::high_enough(done, min_score)),
            scores@ == found::scored_scores(rrf::high_enough(done, min_score)),
        decreases rest.len() - k,
    {
        proof {
            assert(all.take(k as int + 1).drop_last() =~= all.take(k as int));
            assert(all.take(k as int + 1).last() == rest@[k as int]@);
        }
        if !holds(connected, rest[k].as_str()) {
            let zero = Score { bits: ZERO_BITS };
            push_scored(&mut uuids, &mut scores, rest[k].as_str(), zero, min_score, Ghost(done));
            proof {
                let before = among(all.take(k as int), near, false);
                let u = rest@[k as int]@;
                done = done.push((u, zero));
                assert(all_scored(before.push(u), zero) =~= all_scored(before, zero).push(
                    (u, zero),
                ));
                assert(done =~= nearer + all_scored(before.push(u), zero));
            }
        }
        k += 1;
    }
    assert(done =~= by_distance(text::views(node_uuids@), center, near));
    (uuids, scores)
}

/// The score of a node by its mentions: their number, and infinity where it is not known.
pub open spec fn mention_score(counts: Map<Seq<char>, u64>, uuid: Seq<char>) -> Score {
    if counts.dom().contains(uuid) {
        double::double_of(counts[uuid] as nat)
    } else {
        Score { bits: INFINITY_BITS }
    }
}

/// Nodes with their scores by mentions.
pub open spec fn mention_scores(uuids: Seq<Seq<char>>, counts: Map<Seq<char>, u64>) -> Seq<
    (Seq<char>, Score),
> {
    uuids.map_values(|u: Seq<char>| (u, mention_score(counts, u)))
}

/// Scored identifiers by rising scores; those of equal score keep their order.
pub open spec fn lowest_first(pairs: Seq<(Seq<char>, Score)>) -> Seq<(Seq<char>, Score)> {
    sorting::sorted_by(pairs, pairs.map_values(|p: (Seq<char>, Score)| p.1.rank()))
}

/// Orders nodes by the number of episodes that mention them, those with fewer first and those
/// without a number last, and leaves those whose score is high enough.
pub fn episode_mentions_rerank(
    sorted_uuids: &Vec<String>,
    counts: &StringMap<u64>,
    min_score: Score,
) -> (r: (Vec<String>, Vec<Score>))
    ensures
        text::views(r.0@) == found::scored_uuids(
            rrf::high_enough(
                lowest_first(mention_scores(text::views(sorted_uuids@), counts@)),
                min_score,
            ),
        ),
        r.1@ == found::scored_scores(
            rrf::high_enough(
                lowest_first(mention_scores(text::views(sorted_uuids@), counts@)),
                min_score,
            ),
        ),
{
    let ghost pairs = mention_scores(text::views(sorted_uuids@), counts@);
    let ghost rising = pairs.map_values(|p: (Seq<char>, Score)| p.1.rank());
    let mut all: Vec<Score> = Vec::new();
    let mut keys: Vec<i128> = Vec::new();
    let mut i: usize = 0;
    while i < sorted_uuids.len()
        invariant
            i <= sorted_uuids@.len(),
            all@.len() == i,
            keys@.len() == i,
            forall|j: int|
                0 <= j < i ==> (#[trigger] all@[j]) == mention_score(counts@, sorted_uuids@[j]@),
            forall|j: int| 0 <= j < i ==> (#[trigger] keys@[j]) == all@[j].rank(),
        decreases sorted_uuids.len() - i,
    {
        let score = match counts.get(sorted_uuids[i].as_str()) {
            Some(c) => from_count(*c),
            None => Score { bits: INFINITY_BITS },
        };
        all.push(score);
        keys.push(score.get_rank());
        i += 1;
    }
    proof {
        assert forall|j: int| 0 <= j < keys@.len() implies sorting::key_values(keys@)[j] == rising[j] by {
            assert(pairs[j] == (sorted_uuids@[j]@, all@[j]));
        }
        assert(sorting::key_values(keys@) =~= rising);
    }
    let order = stable_order(&keys);
    let ghost sorted = lowest_first(pairs);
    proof {
        let chosen = choose|o: Seq<usize>| sorting::is_stable_order(rising, o);
        sorting::lemma_stable_order_unique(rising, order@, chosen);
        assert(sorted =~= order@.map_values(|k: usize| pairs[k as int]));
    }
    let mut uuids: Vec<String> = Vec::new();
    let mut scores: Vec<Score> = Vec::new();
    let mut k: usize = 0;
    proof {
        assert(sorted.take(0) =~= Seq::<(Seq<char>, Score)>::empty());
        assert(
            text::views(uuids@) =~= found::scored_uuids(rrf::high_enough(sorted.take(0), min_score))
        );
        assert(scores@ =~= found::scored_scores(rrf::high_enough(sorted.take(0), min_score)));
    }
    while k < order.len()
        invariant
            k <= order@.len(),
            sorted_uuids@.len() == all@.len() == order@.len(),
            forall|j: int| 0 <= j < order@.len() ==> (#[trigger] order@[j]) < all@.len(),
            pairs == mention_scores(text::views(sorted_uuids@), counts@),
            forall|j: int|
                0 <= j < all@.len() ==> (#[trigger] all@[j]) == mention_score(
                    counts@,
                    sorted_uuids@[j]@,
                ),
            sorted == order@.map_values(|k: usize| pairs[k as int]),
            text::views(uuids@) == found::scored_uuids(
                rrf::high_enough(sorted.take(k as int), min_score),
            ),
            scores@ == found::scored_scores(rrf::high_enough(sorted.take(k as int), min_score)),
        decreases order.len() - k,
    {
        let at = order[k];
        let ghost done = sorted.take(k as int);
        push_scored(
            &mut uuids,
            &mut scores,
            sorted_uuids[at].as_str(),
            all[at],
            min_score,
            Ghost(done),
        );
        proof {
            assert(sorted[k as int] == (sorted_uuids@[at as int]@, all@[at as int]));
            assert(sorted.take(k as int + 1) =~= done.push(sorted[k as int]));
        }
        k += 1;
    }
    assert(sorted.take(sorted.len() as int) =~= sorted);
    (uuids, scores)
}

/// The identifiers whose embeddings are known, in order.
pub open spec fn embedded(uuids: Seq<Seq<char>>, known: Set<Seq<char>>) -> Seq<Seq<char>> {
    among(uuids, known, true)
}

/// The candidates of an order by relevance and diversity: the identifiers whose embeddings are
/// known, with these, in order.
pub fn mmr_candidates(uuid_order: &Vec<String>, embeddings: &StringMap<Embedding>) -> (r: Vec<
    (String, Embedding),
>)
    ensures
        r@.map_values(|c: (String, Embedding)| c.0@) == embedded(
            text::views(uuid_order@),
            embeddings@.dom(),
        ),
        forall|i: int|
            0 <= i < r@.len() ==> embeddings@.dom().contains((#[trigger] r@[i]).0@) && r@[i].1@
                == embeddings@[r@[i].0@]@,
{
    let ghost all = text::views(uuid_order@);
    let ghost known = embeddings@.dom();
    let mut out: Vec<(String, Embedding)> = Vec::new();
    let mut i: usize = 0;
    assert(out@.map_values(|c: (String, Embedding)| c.0@) =~= embedded(all.take(0), known));
    while i < uuid_order.len()
        invariant
            i <= uuid_order@.len(),
            all == text::views(uuid_order@),
            known == embeddings@.dom(),
            out@.map_values(|c: (String, Embedding)| c.0@) == embedded(all.take(i as int), known),
            forall|j: int|
                0 <= j < out@.len() ==> embeddings@.dom().contains((#[trigger] out@[j]).0@)
                    && out@[j].1@ == embeddings@[out@[j].0@]@,
        decreases uuid_order.len() - i,
    {
        proof {
            assert(all.take(i as int + 1).drop_last() =~= all.take(i as int));
            assert(all.take(i as int + 1).last() == uuid_order@[i as int]@);
        }
        match embeddings.get(uuid_order[i].as_str()) {
            Some(v) => {
                let copy = v.clone();
                assert(copy@ =~= v@);
                let ghost before = out@;
                out.push((uuid_order[i].clone(), copy));
                assert(out@.map_values(|c: (String, Embedding)| c.0@) =~= before.map_values(
                    |c: (String, Embedding)| c.0@,
                ).push(uuid_order@[i as int]@));
            },
            None => {},
        }
        i += 1;
    }
    assert(all.take(all.len() as int) =~= all);
    out
}

/// An order by nearness has the center first, if it is among the nodes, and no node that is not
/// among them.
pub proof fn law_distance_order_starts_at_the_center(
    uuids: Seq<Seq<char>>,
    center: Seq<char>,
    connected: Set<Seq<char>>,
    i: int,
)
    requires
        0 <= i < by_distance(uuids, center, connected).len(),
    ensures
        uuids.contains(center) ==> by_distance(uuids, center, connected)[0].0 == center,
        uuids.contains(by_distance(uuids, center, connected)[i].0),
        by_distance(uuids, center, connected)[i].0 == center ==> i == 0,
{
    let rest = others(uuids, center);
    let near = among(rest, connected, true);
    let far = among(rest, connected, false);
    lemma_others(uuids, center);
    lemma_among(rest, connected, true);
    lemma_among(rest, connected, false);
    let out = by_distance(uuids, center, connected);
    let head: int = if uuids.contains(center) { 1 } else { 0 };
    if i >= head {
        if i - head < near.len() {
            assert(out[i].0 == near[i - head]);
            assert(rest.contains(out[i].0));
        } else {
            assert(out[i].0 == far[i - head - near.len()]);
            assert(rest.contains(out[i].0));
        }
        let k = choose|k: int| 0 <= k < rest.len() && rest[k] == out[i].0;
        assert(uuids.contains(rest[k]) && rest[k] != center);
    }
}

proof fn lemma_others(uuids: Seq<Seq<char>>, one: Seq<char>)
    ensures
        forall|k: int|
            0 <= k < others(uuids, one).len() ==> uuids.contains(#[trigger] others(uuids, one)[k])
                && others(uuids, one)[k] != one,
    decreases uuids.len(),
{
    if uuids.len() > 0 {
        let init = uuids.drop_last();
        lemma_others(init, one);
        let before = others(init, one);
        let after = others(uuids, one);
        assert forall|k: int| 0 <= k < after.len() implies uuids.contains(#[trigger] after[k])
            && after[k] != one by {
            if k < before.len() {
                assert(after[k] == before[k]);
                let m = choose|m: int| 0 <= m < init.len() && init[m] == before[k];
                assert(uuids[m] == after[k]);
            } else {
                assert(uuids[uuids.len() - 1] == after[k]);
            }
        }
    }
}

proof fn lemma_among(uuids: Seq<Seq<char>>, set: Set<Seq<char>>, inside: bool)
    ensures
        forall|k: int|
            0 <= k < among(uuids, set, inside).len() ==> uuids.contains(
                #[trigger] among(uuids, set, inside)[k],
            ) && set.contains(among(uuids, set, inside)[k]) == inside,
    decreases uuids.len(),
{
    if uuids.len() > 0 {
        let init = uuids.drop_last();
        lemma_among(init, set, inside);
        let before = among(init, set, inside);
        let after = among(uuids, set, inside);
        assert forall|k: int| 0 <= k < after.len() implies uuids.contains(#[trigger] after[k])
            && set.contains(after[k]) == inside by {
            if k < before.len() {
                assert(after[k] == before[k]);
                let m = choose|m: int| 0 <= m < init.len() && init[m] == before[k];
                assert(uuids[m] == after[k]);
            } else {
                assert(uuids[uuids.len() - 1] == after[k]);
            }
        }
    }
}

} // verus!
