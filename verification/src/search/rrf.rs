//! The fusion of rankings by reciprocal ranks.
use crate::double::{self, from_count, invert, plus};
use crate::pipeline::dedup_index;
use crate::score::{Score, ZERO_BITS};
use crate::search::found;
use crate::sorting::{self, stable_order};
use crate::text::{self, str_eq};
use vstd::prelude::*;

verus! {

/// The identifiers of a ranking with their ranks, from `rank_const` on.
pub open spec fn ranks(list: Seq<Seq<char>>, rank_const: nat) -> Seq<(Seq<char>, nat)> {
    list.map(|i: int, u: Seq<char>| (u, (i + rank_const) as nat))
}

/// The identifiers of rankings with their ranks, one ranking after the other.
pub open spec fn all_ranks(lists: Seq<Seq<Seq<char>>>, rank_const: nat) -> Seq<(Seq<char>, nat)>
    decreases lists.len(),
{
    if lists.len() == 0 {
        Seq::empty()
    } else {
        all_ranks(lists.drop_last(), rank_const) + ranks(lists.last(), rank_const)
    }
}

/// What a rank adds to a score.
pub open spec fn rank_share(rank: nat) -> Score {
    double::reciprocal(double::double_of(rank))
}

/// The score of an identifier: the sum of what its ranks add, as they come.
pub open spec fn fused_score(entries: Seq<(Seq<char>, nat)>, uuid: Seq<char>) -> Score
    decreases entries.len(),
{
    if entries.len() == 0 {
        Score { bits: ZERO_BITS }
    } else {
        let before = fused_score(entries.drop_last(), uuid);
        if entries.last().0 == uuid {
            double::sum(before, rank_share(entries.last().1))
        } else {
            before
        }
    }
}

/// The identifiers among ranks.
pub open spec fn ranked_uuids(entries: Seq<(Seq<char>, nat)>) -> Seq<Seq<char>> {
    entries.map_values(|e: (Seq<char>, nat)| e.0)
}

/// The identifiers of rankings in the order in which they occur first, with their scores.
pub open spec fn fused(entries: Seq<(Seq<char>, nat)>) -> Seq<(Seq<char>, Score)> {
    dedup_index::first_seen(ranked_uuids(entries)).map_values(
        |u: Seq<char>| (u, fused_score(entries, u)),
    )
}

/// The keys by which larger scores come first.
pub open spec fn falling_keys(pairs: Seq<(Seq<char>, Score)>) -> Seq<int> {
    pairs.map_values(|p: (Seq<char>, Score)| -p.1.rank())
}

/// Scored identifiers by falling scores; those of equal score keep their order.
pub open spec fn best_first(pairs: Seq<(Seq<char>, Score)>) -> Seq<(Seq<char>, Score)> {
    sorting::sorted_by(pairs, falling_keys(pairs))
}

/// The scored identifiers whose score is high enough, in order.
pub open spec fn high_enough(pairs: Seq<(Seq<char>, Score)>, min: Score) -> Seq<(Seq<char>, Score)>
    decreases pairs.len(),
{
    if pairs.len() == 0 {
        Seq::empty()
    } else {
        let before = high_enough(pairs.drop_last(), min);
        if pairs.last().1.at_least(min) {
            before.push(pairs.last())
        } else {
            before
        }
    }
}

/// Rankings fused: the identifiers by falling scores, those of equal score in the order in which
/// they occur first, as far as their scores are high enough.
pub open spec fn fusion(lists: Seq<Seq<Seq<char>>>, rank_const: nat, min: Score) -> Seq<
    (Seq<char>, Score),
> {
    high_enough(best_first(fused(all_ranks(lists, rank_const))), min)
}

/// Orders scored identifiers by falling scores and leaves those whose score is high enough.
pub fn rank_by_score(uuids: &Vec<String>, scores: &Vec<Score>, min_score: Score) -> (r: (
    Vec<String>,
    Vec<Score>,
))
    requires
        uuids@.len() == scores@.len(),
    ensures
        text::views(r.0@) == found::scored_uuids(
            high_enough(best_first(found::scored(text::views(uuids@), scores@)), min_score),
        ),
        r.1@ == found::scored_scores(
            high_enough(best_first(found::scored(text::views(uuids@), scores@)), min_score),
        ),
{
    let ghost pairs = found::scored(text::views(uuids@), scores@);
    let mut keys: Vec<i128> = Vec::new();
    let mut i: usize = 0;
    while i < scores.len()
        invariant
            i <= scores@.len(),
            keys@.len() == i,
            forall|j: int| 0 <= j < i ==> (#[trigger] keys@[j]) == -scores@[j].rank(),
        decreases scores.len() - i,
    {
        keys.push(-scores[i].get_rank());
        i += 1;
    }
    assert(sorting::key_values(keys@) =~= falling_keys(pairs));
    let order = stable_order(&keys);
    let ghost sorted = best_first(pairs);
    proof {
        let chosen = choose|o: Seq<usize>| sorting::is_stable_order(falling_keys(pairs), o);
        sorting::lemma_stable_order_unique(falling_keys(pairs), order@, chosen);
        assert(sorted =~= order@.map_values(|k: usize| pairs[k as int]));
    }
    let mut out: Vec<String> = Vec::new();
    let mut kept: Vec<Score> = Vec::new();
    let mut k: usize = 0;
    proof {
        let none = high_enough(sorted.take(0), min_score);
        assert(text::views(out@) =~= found::scored_uuids(none));
        assert(kept@ =~= found::scored_scores(none));
    }
    while k < order.len()
        invariant
            k <= order@.len(),
            uuids@.len() == scores@.len() == order@.len(),
            forall|j: int| 0 <= j < order@.len() ==> (#[trigger] order@[j]) < uuids@.len(),
            pairs == found::scored(text::views(uuids@), scores@),
            sorted == order@.map_values(|k: usize| pairs[k as int]),
            text::views(out@) == found::scored_uuids(high_enough(sorted.take(k as int), min_score)),
            kept@ == found::scored_scores(high_enough(sorted.take(k as int), min_score)),
        decreases order.len() - k,
    {
        let at = order[k];
        let ghost done = high_enough(sorted.take(k as int), min_score);
        proof {
            assert(sorted.take(k as int + 1).drop_last() =~= sorted.take(k as int));
            assert(sorted.take(k as int + 1).last() == (uuids@[at as int]@, scores@[at as int]));
        }
        if scores[at].is_at_least(&min_score) {
            let ghost before = out@;
            let ghost pair = (uuids@[at as int]@, scores@[at as int]);
            out.push(uuids[at].clone());
            kept.push(scores[at]);
            proof {
                assert(text::views(out@) =~= text::views(before).push(pair.0));
                assert(
                    found::scored_uuids(done.push(pair)) =~= found::scored_uuids(done).push(pair.0)
                );
                assert(
                    found::scored_scores(done.push(pair)) =~= found::scored_scores(done).push(
                        pair.1,
                    )
                );
            }
        }
        k += 1;
    }
    assert(sorted.take(sorted.len() as int) =~= sorted);
    (out, kept)
}

/// The position of a string in a list of different strings.
fn position(list: &Vec<String>, s: &str) -> (r: Option<usize>)
    ensures
        match r {
            Some(i) => i < list@.len() && text::views(list@)[i as int] == s@,
            None => !text::views(list@).contains(s@),
        },
{
    let mut i: usize = 0;
    while i < list.len()
        invariant
            i <= list@.len(),
            forall|j: int| 0 <= j < i ==> text::views(list@)[j] != s@,
        decreases list.len() - i,
    {
        assert(text::views(list@)[i as int] == list@[i as int]@);
        if str_eq(list[i].as_str(), s) {
            return Some(i);
        }
        i += 1;
    }
    None
}

/// Holds where the lists are the identifiers of ranks in the order in which they occur first,
/// with their scores.
spec fn are_fused(uuids: Seq<Seq<char>>, scores: Seq<Score>, entries: Seq<(Seq<char>, nat)>) -> bool {
    &&& uuids == dedup_index::first_seen(ranked_uuids(entries))
    &&& scores.len() == uuids.len()
    &&& forall|i: int|
        0 <= i < uuids.len() ==> (#[trigger] scores[i]) == fused_score(entries, uuids[i])
    &&& forall|i: int| 0 <= i < scores.len() ==> double::is_plain(#[trigger] scores[i])
    &&& forall|i: int, j: int|
        0 <= i < j < uuids.len() ==> #[trigger] uuids[i] != #[trigger] uuids[j]
}

proof fn lemma_unseen_score(entries: Seq<(Seq<char>, nat)>, uuid: Seq<char>)
    requires
        !dedup_index::first_seen(ranked_uuids(entries)).contains(uuid),
    ensures
        fused_score(entries, uuid) == (Score { bits: ZERO_BITS }),
    decreases entries.len(),
{
    if entries.len() > 0 {
        let init = entries.drop_last();
        assert(ranked_uuids(entries).drop_last() =~= ranked_uuids(init));
        let before = dedup_index::first_seen(ranked_uuids(init));
        let after = dedup_index::first_seen(ranked_uuids(entries));
        if before.contains(uuid) {
            let k = choose|k: int| 0 <= k < before.len() && before[k] == uuid;
            assert(after[k] == uuid);
        }
        if entries.last().0 == uuid {
            if !before.contains(uuid) {
                assert(after[after.len() - 1] == uuid);
            }
        }
        lemma_unseen_score(init, uuid);
    }
}

/// Fuses rankings. An identifier at position `i` of a ranking scores one over `i + rank_const`
/// for it.
pub fn rrf(results: &[Vec<String>], rank_const: usize, min_score: Score) -> (r: (
    Vec<String>,
    Vec<Score>,
))
    requires
        forall|i: int|
            0 <= i < results@.len() ==> (#[trigger] results@[i])@.len() + rank_const <= usize::MAX,
    ensures
        text::views(r.0@) == found::scored_uuids(
            fusion(found::string_list_views(results@), rank_const as nat, min_score),
        ),
        r.1@ == found::scored_scores(
            fusion(found::string_list_views(results@), rank_const as nat, min_score),
        ),
{
    let ghost lists = found::string_list_views(results@);
    let ghost c = rank_const as nat;
    let mut uuids: Vec<String> = Vec::new();
    let mut scores: Vec<Score> = Vec::new();
    let mut i: usize = 0;
    proof {
        let none = all_ranks(lists.take(0), c);
        assert(ranked_uuids(none) =~= Seq::<Seq<char>>::empty());
        assert(text::views(uuids@) =~= dedup_index::first_seen(ranked_uuids(none)));
    }
    while i < results.len()
        invariant
            i <= results@.len(),
            lists == found::string_list_views(results@),
            c == rank_const,
            forall|i: int|
                0 <= i < results@.len() ==> (#[trigger] results@[i])@.len() + rank_const
                    <= usize::MAX,
            are_fused(text::views(uuids@), scores@, all_ranks(lists.take(i as int), c)),
        decreases results.len() - i,
    {
        let list = &results[i];
        let ghost done = all_ranks(lists.take(i as int), c);
        let ghost more = ranks(text::views(list@), c);
        proof {
            assert(lists.take(i as int + 1).drop_last() =~= lists.take(i as int));
            assert(lists.take(i as int + 1).last() == text::views(list@));
            assert(done + more.take(0) =~= done);
        }
        let mut k: usize = 0;
        while k < list.len()
            invariant
                k <= list@.len(),
                c == rank_const,
                list@.len() + rank_const <= usize::MAX,
                more == ranks(text::views(list@), c),
                are_fused(text::views(uuids@), scores@, done + more.take(k as int)),
            decreases list.len() - k,
        {
            let ghost before = done + more.take(k as int);
            let ghost next = done + more.take(k as int + 1);
            let ghost uuid = list@[k as int]@;
            let ghost rank = (k + rank_const) as nat;
            proof {
                assert(next.drop_last() =~= before);
                assert(next.last() == (uuid, rank));
                assert(ranked_uuids(next).drop_last() =~= ranked_uuids(before));
                assert(ranked_uuids(next).last() == uuid);
            }
            let share = invert(from_count((k + rank_const) as u64));
            let ghost old_uuids = text::views(uuids@);
            let ghost old_scores = scores@;
            match position(&uuids, list[k].as_str()) {
                Some(at) => {
                    let total = plus(scores[at], share);
                    scores.set(at, total);
                    proof {
                        assert(old_uuids.contains(uuid)) by {
                            assert(old_uuids[at as int] == uuid);
                        }
                        assert forall|j: int| 0 <= j < old_uuids.len() implies (
                        #[trigger] scores@[j]) == fused_score(next, old_uuids[j]) by {
                            if j == at {
                                assert(old_scores[j] == fused_score(before, uuid));
                            } else {
                                assert(old_uuids[j] != old_uuids[at as int]);
                                assert(old_scores[j] == fused_score(before, old_uuids[j]));
                            }
                        }
                    }
                },
                None => {
                    let total = plus(Score { bits: ZERO_BITS }, share);
                    let ghost had = uuids@;
                    uuids.push(list[k].clone());
                    scores.push(total);
                    proof {
                        lemma_unseen_score(before, uuid);
                        assert(text::views(uuids@) =~= old_uuids.push(uuid));
                        assert forall|j: int| 0 <= j < text::views(uuids@).len() implies (
                        #[trigger] scores@[j]) == fused_score(next, text::views(uuids@)[j]) by {
                            if j < old_uuids.len() {
                                assert(old_uuids.contains(old_uuids[j]));
                                assert(old_scores[j] == fused_score(before, old_uuids[j]));
                            }
                        }
                        assert forall|a: int, b: int| 0 <= a < b < text::views(uuids@).len() implies
                            #[trigger] text::views(uuids@)[a] != #[trigger] text::views(uuids@)[b] by {
                            if b == old_uuids.len() {
                                assert(old_uuids.contains(old_uuids[a]));
                            }
                        }
                    }
                },
            }
            k += 1;
        }
        assert(more.take(more.len() as int) =~= more);
        i += 1;
    }
    proof {
        assert(lists.take(lists.len() as int) =~= lists);
        let entries = all_ranks(lists, c);
        assert(found::scored(text::views(uuids@), scores@) =~= fused(entries));
    }
    rank_by_score(&uuids, &scores, min_score)
}

/// A fusion has no identifier but those of the rankings, each once and with its score, and those
/// with larger scores first.
pub proof fn law_fusion_has_each_result_once(
    lists: Seq<Seq<Seq<char>>>,
    rank_const: nat,
    min: Score,
    i: int,
)
    requires
        0 <= i < fusion(lists, rank_const, min).len(),
        fused(all_ranks(lists, rank_const)).len() <= usize::MAX,
    ensures
        ({
            let out = fusion(lists, rank_const, min);
            let entries = all_ranks(lists, rank_const);
            &&& ranked_uuids(entries).contains(out[i].0)
            &&& out[i].1 == fused_score(entries, out[i].0)
            &&& out[i].1.at_least(min)
            &&& forall|j: int| 0 <= j < out.len() && j != i ==> (#[trigger] out[j]).0 != out[i].0
            &&& forall|j: int| 0 <= j < i ==> (#[trigger] out[j]).1.at_least(out[i].1)
        }),
{
    let entries = all_ranks(lists, rank_const);
    let pairs = fused(entries);
    let keys = falling_keys(pairs);
    lemma_first_seen(ranked_uuids(entries));
    sorting::lemma_order_exists(keys);
    let order = choose|o: Seq<usize>| sorting::is_stable_order(keys, o);
    let sorted = best_first(pairs);
    assert(sorted =~= order.map_values(|k: usize| pairs[k as int]));
    lemma_high_enough(sorted, min);
    let out = fusion(lists, rank_const, min);
    let s = choose|s: Seq<int>| picks(sorted, out, s, min);
    assert(out[i] == sorted[s[i]]);
    assert(sorted[s[i]] == pairs[order[s[i]] as int]);
    let seen = dedup_index::first_seen(ranked_uuids(entries));
    assert(pairs[order[s[i]] as int].0 == seen[order[s[i]] as int]);
    assert(seen.contains(out[i].0));
    assert forall|j: int| 0 <= j < out.len() && j != i implies (#[trigger] out[j]).0 != out[i].0 by {
        assert(out[j] == sorted[s[j]]);
        assert(sorted[s[j]] == pairs[order[s[j]] as int]);
        assert(pairs[order[s[j]] as int].0 == seen[order[s[j]] as int]);
        let (a, b) = if i < j { (s[i], s[j]) } else { (s[j], s[i]) };
        assert(sorting::precedes(keys, order[a] as int, order[b] as int));
    }
    assert forall|j: int| 0 <= j < i implies (#[trigger] out[j]).1.at_least(out[i].1) by {
        assert(out[j] == sorted[s[j]]);
        assert(sorted[s[j]] == pairs[order[s[j]] as int]);
        assert(s[j] < s[i]);
        assert(sorting::precedes(keys, order[s[j]] as int, order[s[i]] as int));
    }
}

/// A fusion loses no identifier of the rankings whose score is high enough.
pub proof fn law_fusion_loses_no_result(
    lists: Seq<Seq<Seq<char>>>,
    rank_const: nat,
    min: Score,
    uuid: Seq<char>,
)
    requires
        ranked_uuids(all_ranks(lists, rank_const)).contains(uuid),
        fused_score(all_ranks(lists, rank_const), uuid).at_least(min),
        fused(all_ranks(lists, rank_const)).len() <= usize::MAX,
    ensures
        fusion(lists, rank_const, min).contains(
            (uuid, fused_score(all_ranks(lists, rank_const), uuid)),
        ),
{
    let entries = all_ranks(lists, rank_const);
    let pairs = fused(entries);
    let keys = falling_keys(pairs);
    let seen = dedup_index::first_seen(ranked_uuids(entries));
    lemma_first_seen_has_all(ranked_uuids(entries), uuid);
    let k = choose|k: int| 0 <= k < seen.len() && seen[k] == uuid;
    assert(pairs[k] == (uuid, fused_score(entries, uuid)));
    sorting::lemma_order_exists(keys);
    let order = choose|o: Seq<usize>| sorting::is_stable_order(keys, o);
    sorting::law_sorting_keeps_items(pairs, keys, order, k);
    lemma_high_enough_keeps(best_first(pairs), min, pairs[k]);
}

proof fn lemma_high_enough_keeps(from: Seq<(Seq<char>, Score)>, min: Score, p: (Seq<char>, Score))
    requires
        from.contains(p),
        p.1.at_least(min),
    ensures
        high_enough(from, min).contains(p),
    decreases from.len(),
{
    let init = from.drop_last();
    let before = high_enough(init, min);
    let after = high_enough(from, min);
    if from.last() == p {
        assert(after[after.len() - 1] == p);
    } else {
        let i = choose|i: int| 0 <= i < from.len() && from[i] == p;
        assert(init[i] == p);
        lemma_high_enough_keeps(init, min, p);
        let j = choose|j: int| 0 <= j < before.len() && before[j] == p;
        assert(after[j] == p);
    }
}

proof fn lemma_first_seen_has_all(s: Seq<Seq<char>>, x: Seq<char>)
    requires
        s.contains(x),
    ensures
        dedup_index::first_seen(s).contains(x),
    decreases s.len(),
{
    let init = s.drop_last();
    let before = dedup_index::first_seen(init);
    let after = dedup_index::first_seen(s);
    if s.last() == x {
        if !before.contains(x) {
            assert(after[after.len() - 1] == x);
        }
    } else {
        let i = choose|i: int| 0 <= i < s.len() && s[i] == x;
        assert(init[i] == x);
        lemma_first_seen_has_all(init, x);
        let j = choose|j: int| 0 <= j < before.len() && before[j] == x;
        assert(after[j] == x);
    }
}

/// Holds where `out` are the items of `from` at increasing positions, all high enough.
spec fn picks(
    from: Seq<(Seq<char>, Score)>,
    out: Seq<(Seq<char>, Score)>,
    s: Seq<int>,
    min: Score,
) -> bool {
    &&& s.len() == out.len()
    &&& forall|i: int|
        #![trigger s[i]]
        #![trigger out[i]]
        0 <= i < s.len() ==> 0 <= s[i] < from.len() && out[i] == from[s[i]] && out[i].1.at_least(
            min,
        )
    &&& forall|i: int, j: int| 0 <= i < j < s.len() ==> #[trigger] s[i] < #[trigger] s[j]
}

proof fn lemma_high_enough(from: Seq<(Seq<char>, Score)>, min: Score)
    ensures
        exists|s: Seq<int>| picks(from, high_enough(from, min), s, min),
    decreases from.len(),
{
    let out = high_enough(from, min);
    if from.len() == 0 {
        assert(picks(from, out, Seq::empty(), min));
    } else {
        let init = from.drop_last();
        lemma_high_enough(init, min);
        let s = choose|s: Seq<int>| picks(init, high_enough(init, min), s, min);
        if from.last().1.at_least(min) {
            let t = s.push(from.len() - 1);
            assert forall|i: int|
                #![trigger t[i]]
                #![trigger out[i]]
                0 <= i < t.len() implies 0 <= t[i] < from.len() && out[i] == from[t[i]]
                && out[i].1.at_least(min) by {
                if i < s.len() {
                    assert(t[i] == s[i]);
                    assert(out[i] == high_enough(init, min)[i]);
                    assert(from[s[i]] == init[s[i]]);
                }
            }
            assert forall|i: int, j: int| 0 <= i < j < t.len() implies #[trigger] t[i]
                < #[trigger] t[j] by {
                assert(t[i] == s[i]);
                if j < s.len() {
                    assert(t[j] == s[j]);
                }
            }
            assert(picks(from, out, t, min));
        } else {
            assert forall|i: int|
                #![trigger s[i]]
                #![trigger out[i]]
                0 <= i < s.len() implies 0 <= s[i] < from.len() && out[i] == from[s[i]]
                && out[i].1.at_least(min) by {
                assert(from[s[i]] == init[s[i]]);
            }
            assert(picks(from, out, s, min));
        }
    }
}

/// The first occurrences are all different, and all occur.
pub proof fn lemma_first_seen(s: Seq<Seq<char>>)
    ensures
        forall|i: int| 0 <= i < dedup_index::first_seen(s).len() ==> s.contains(
            #[trigger] dedup_index::first_seen(s)[i],
        ),
        forall|i: int, j: int|
            0 <= i < j < dedup_index::first_seen(s).len() ==> (#[trigger] dedup_index::first_seen(s)[i])
                != (#[trigger] dedup_index::first_seen(s)[j]),
    decreases s.len(),
{
    if s.len() > 0 {
        let init = s.drop_last();
        lemma_first_seen(init);
        let before = dedup_index::first_seen(init);
        let after = dedup_index::first_seen(s);
        assert forall|i: int| 0 <= i < after.len() implies s.contains(#[trigger] after[i]) by {
            if i < before.len() {
                assert(after[i] == before[i]);
                let k = choose|k: int| 0 <= k < init.len() && init[k] == before[i];
                assert(s[k] == after[i]);
            } else {
                assert(s[s.len() - 1] == after[i]);
            }
        }
        assert forall|i: int, j: int| 0 <= i < j < after.len() implies #[trigger] after[i]
            != #[trigger] after[j] by {
            assert(after[i] == before[i]);
            if j < before.len() {
                assert(after[j] == before[j]);
            } else {
                assert(before.contains(before[i]));
            }
        }
    }
}

} // verus!
