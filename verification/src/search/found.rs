//! What a search can find: things with an identifier and a text.
use crate::pipeline::dedup_index::{self, append_missing};
use crate::score::Score;
use crate::text::{self, str_eq};
use crate::types::community::{CommunityNode, CommunityNodeView};
use crate::types::edge::{EntityEdge, EntityEdgeView};
use crate::types::episode::{EpisodicNode, EpisodicNodeView};
use crate::types::node::{EntityNode, EntityNodeView};
use vstd::prelude::*;

verus! {

/// A thing that a search can find.
pub trait Found: View + Sized {
    /// Its identifier.
    spec fn id(v: Self::V) -> Seq<char>;

    /// The text by which a model scores it.
    spec fn passage(v: Self::V) -> Seq<char>;

    fn uuid(&self) -> (r: &String)
        ensures
            r@ == Self::id(self@),
    ;

    fn text(&self) -> (r: &String)
        ensures
            r@ == Self::passage(self@),
    ;

    fn copied(&self) -> (r: Self)
        ensures
            r@ == self@,
    ;
}

impl Found for EntityEdge {
    open spec fn id(v: EntityEdgeView) -> Seq<char> {
        v.uuid
    }

    open spec fn passage(v: EntityEdgeView) -> Seq<char> {
        v.fact
    }

    fn uuid(&self) -> (r: &String) {
        &self.uuid
    }

    fn text(&self) -> (r: &String) {
        &self.fact
    }

    fn copied(&self) -> (r: EntityEdge) {
        self.clone()
    }
}

impl Found for EntityNode {
    open spec fn id(v: EntityNodeView) -> Seq<char> {
        v.uuid
    }

    open spec fn passage(v: EntityNodeView) -> Seq<char> {
        v.name
    }

    fn uuid(&self) -> (r: &String) {
        &self.uuid
    }

    fn text(&self) -> (r: &String) {
        &self.name
    }

    fn copied(&self) -> (r: EntityNode) {
        self.clone()
    }
}

impl Found for EpisodicNode {
    open spec fn id(v: EpisodicNodeView) -> Seq<char> {
        v.uuid
    }

    open spec fn passage(v: EpisodicNodeView) -> Seq<char> {
        v.content
    }

    fn uuid(&self) -> (r: &String) {
        &self.uuid
    }

    fn text(&self) -> (r: &String) {
        &self.content
    }

    fn copied(&self) -> (r: EpisodicNode) {
        self.clone()
    }
}

impl Found for CommunityNode {
    open spec fn id(v: CommunityNodeView) -> Seq<char> {
        v.uuid
    }

    open spec fn passage(v: CommunityNodeView) -> Seq<char> {
        v.name
    }

    fn uuid(&self) -> (r: &String) {
        &self.uuid
    }

    fn text(&self) -> (r: &String) {
        &self.name
    }

    fn copied(&self) -> (r: CommunityNode) {
        self.clone()
    }
}

/// The views of things.
pub open spec fn item_views<T: Found>(items: Seq<T>) -> Seq<T::V> {
    items.map_values(|t: T| t@)
}

/// The views of lists of things.
pub open spec fn list_views<T: Found>(lists: Seq<Vec<T>>) -> Seq<Seq<T::V>> {
    lists.map_values(|l: Vec<T>| item_views(l@))
}

/// The things of lists, one list after the other.
pub open spec fn in_order<V>(lists: Seq<Seq<V>>) -> Seq<V>
    decreases lists.len(),
{
    if lists.len() == 0 {
        Seq::empty()
    } else {
        in_order(lists.drop_last()) + lists.last()
    }
}

/// The identifiers of things.
pub open spec fn ids<T: Found>(items: Seq<T::V>) -> Seq<Seq<char>> {
    items.map_values(|v: T::V| T::id(v))
}

/// The identifiers of lists of things.
pub open spec fn id_lists<T: Found>(lists: Seq<Seq<T::V>>) -> Seq<Seq<Seq<char>>> {
    lists.map_values(|l: Seq<T::V>| ids::<T>(l))
}

/// The views of lists of strings.
pub open spec fn string_list_views(lists: Seq<Vec<String>>) -> Seq<Seq<Seq<char>>> {
    lists.map_values(|l: Vec<String>| text::views(l@))
}

/// The last of the things with an identifier.
pub open spec fn last_with<T: Found>(items: Seq<T::V>, uuid: Seq<char>) -> Option<T::V>
    decreases items.len(),
{
    if items.len() == 0 {
        None
    } else if T::id(items.last()) == uuid {
        Some(items.last())
    } else {
        last_with::<T>(items.drop_last(), uuid)
    }
}

/// The things with some identifiers, in their order; identifiers of none are passed over.
pub open spec fn picked<T: Found>(items: Seq<T::V>, uuids: Seq<Seq<char>>) -> Seq<T::V>
    decreases uuids.len(),
{
    if uuids.len() == 0 {
        Seq::empty()
    } else {
        let before = picked::<T>(items, uuids.drop_last());
        match last_with::<T>(items, uuids.last()) {
            Some(v) => before.push(v),
            None => before,
        }
    }
}

/// At most `limit` of the first.
pub open spec fn limited<V>(items: Seq<V>, limit: nat) -> Seq<V> {
    if items.len() <= limit {
        items
    } else {
        items.take(limit as int)
    }
}

/// The things of lists, one list after the other.
pub fn flatten<T: Found>(lists: &Vec<Vec<T>>) -> (r: Vec<T>)
    ensures
        item_views(r@) == in_order(list_views(lists@)),
{
    let ghost all = list_views(lists@);
    let mut out: Vec<T> = Vec::new();
    let mut i: usize = 0;
    assert(item_views(out@) =~= in_order(all.take(0)));
    while i < lists.len()
        invariant
            i <= lists@.len(),
            all == list_views(lists@),
            item_views(out@) == in_order(all.take(i as int)),
        decreases lists.len() - i,
    {
        let list = &lists[i];
        let ghost done = in_order(all.take(i as int));
        let ghost more = item_views(list@);
        proof {
            assert(all.take(i as int + 1).drop_last() =~= all.take(i as int));
            assert(all.take(i as int + 1).last() == more);
            assert(done + more.take(0) =~= done);
        }
        let mut k: usize = 0;
        while k < list.len()
            invariant
                k <= list@.len(),
                more == item_views(list@),
                item_views(out@) == done + more.take(k as int),
            decreases list.len() - k,
        {
            let ghost before = out@;
            let item = list[k].copied();
            let ghost v = item@;
            out.push(item);
            assert(item_views(out@) =~= item_views(before).push(v));
            assert(done + more.take(k as int + 1) =~= (done + more.take(k as int)).push(v));
            k += 1;
        }
        assert(more.take(more.len() as int) =~= more);
        i += 1;
    }
    assert(all.take(all.len() as int) =~= all);
    out
}

/// The identifiers of things.
pub fn uuids_of_items<T: Found>(items: &Vec<T>) -> (r: Vec<String>)
    ensures
        text::views(r@) == ids::<T>(item_views(items@)),
{
    let mut out: Vec<String> = Vec::new();
    let mut i: usize = 0;
    while i < items.len()
        invariant
            i <= items@.len(),
            out@.len() == i,
            forall|j: int| 0 <= j < i ==> (#[trigger] out@[j])@ == T::id(items@[j]@),
        decreases items.len() - i,
    {
        out.push(items[i].uuid().clone());
        i += 1;
    }
    assert(text::views(out@) =~= ids::<T>(item_views(items@)));
    out
}

/// The identifiers of lists of things.
pub fn uuid_lists<T: Found>(lists: &Vec<Vec<T>>) -> (r: Vec<Vec<String>>)
    ensures
        string_list_views(r@) == id_lists::<T>(list_views(lists@)),
{
    let mut out: Vec<Vec<String>> = Vec::new();
    let mut i: usize = 0;
    while i < lists.len()
        invariant
            i <= lists@.len(),
            out@.len() == i,
            forall|j: int|
                0 <= j < i ==> text::views((#[trigger] out@[j])@) == ids::<T>(
                    item_views(lists@[j]@),
                ),
        decreases lists.len() - i,
    {
        out.push(uuids_of_items(&lists[i]));
        i += 1;
    }
    assert(string_list_views(out@) =~= id_lists::<T>(list_views(lists@)));
    out
}

fn find_last<'a, T: Found>(items: &'a Vec<T>, uuid: &str) -> (r: Option<&'a T>)
    ensures
        match last_with::<T>(item_views(items@), uuid@) {
            Some(v) => r matches Some(t) && t@ == v,
            None => r is None,
        },
{
    let ghost all = item_views(items@);
    let mut i: usize = items.len();
    assert(all.take(i as int) =~= all);
    while i > 0
        invariant
            i <= items@.len(),
            all == item_views(items@),
            last_with::<T>(all, uuid@) == last_with::<T>(all.take(i as int), uuid@),
        decreases i,
    {
        proof {
            assert(all.take(i as int).last() == items@[i - 1]@);
            assert(all.take(i as int).drop_last() =~= all.take(i - 1));
        }
        if str_eq(items[i - 1].uuid().as_str(), uuid) {
            return Some(&items[i - 1]);
        }
        i -= 1;
    }
    None
}

/// The things with some identifiers, in their order.
pub fn pick<T: Found>(items: &Vec<T>, uuids: &Vec<String>) -> (r: Vec<T>)
    ensures
        item_views(r@) == picked::<T>(item_views(items@), text::views(uuids@)),
{
    let ghost all = item_views(items@);
    let ghost wanted = text::views(uuids@);
    let mut out: Vec<T> = Vec::new();
    let mut i: usize = 0;
    assert(item_views(out@) =~= picked::<T>(all, wanted.take(0)));
    while i < uuids.len()
        invariant
            i <= uuids@.len(),
            all == item_views(items@),
            wanted == text::views(uuids@),
            item_views(out@) == picked::<T>(all, wanted.take(i as int)),
        decreases uuids.len() - i,
    {
        proof {
            assert(wanted.take(i as int + 1).drop_last() =~= wanted.take(i as int));
            assert(wanted.take(i as int + 1).last() == uuids@[i as int]@);
        }
        match find_last(items, uuids[i].as_str()) {
            Some(t) => {
                let ghost before = out@;
                let item = t.copied();
                let ghost v = item@;
                out.push(item);
                assert(item_views(out@) =~= item_views(before).push(v));
            },
            None => {},
        }
        i += 1;
    }
    assert(wanted.take(wanted.len() as int) =~= wanted);
    out
}

/// Leaves at most `limit` of the first.
pub fn limit_items<T: Found>(items: Vec<T>, limit: usize) -> (r: Vec<T>)
    ensures
        item_views(r@) == limited(item_views(items@), limit as nat),
{
    let mut items = items;
    let ghost all = item_views(items@);
    if items.len() > limit {
        items.truncate(limit);
        assert(item_views(items@) =~= all.take(limit as int));
    }
    items
}

/// Leaves at most `limit` of the first.
pub fn limit_scores(scores: Vec<Score>, limit: usize) -> (r: Vec<Score>)
    ensures
        r@ == limited(scores@, limit as nat),
{
    let mut scores = scores;
    if scores.len() > limit {
        scores.truncate(limit);
    }
    scores
}

/// The strings in the order in which they occur first.
pub fn distinct(strings: &Vec<String>) -> (r: Vec<String>)
    ensures
        text::views(r@) == dedup_index::first_seen(text::views(strings@)),
{
    let mut out: Vec<String> = Vec::new();
    let ghost none: Seq<Seq<char>> = Seq::empty();
    assert(text::views(out@) =~= dedup_index::first_seen(none));
    append_missing(&mut out, strings, Ghost(none));
    assert(none + text::views(strings@) =~= text::views(strings@));
    out
}

/// The passages that a model is to score.
pub open spec fn passages<T: Found>(items: Seq<T::V>) -> Seq<Seq<char>> {
    items.map_values(|v: T::V| T::passage(v))
}

/// The passages that a model is to score, each once.
pub fn distinct_passages<T: Found>(items: &Vec<T>) -> (r: Vec<String>)
    ensures
        text::views(r@) == dedup_index::first_seen(passages::<T>(item_views(items@))),
{
    let mut texts: Vec<String> = Vec::new();
    let mut i: usize = 0;
    while i < items.len()
        invariant
            i <= items@.len(),
            texts@.len() == i,
            forall|j: int| 0 <= j < i ==> (#[trigger] texts@[j])@ == T::passage(items@[j]@),
        decreases items.len() - i,
    {
        texts.push(items[i].text().clone());
        i += 1;
    }
    assert(text::views(texts@) =~= passages::<T>(item_views(items@)));
    distinct(&texts)
}

/// The last of the things with a passage.
pub open spec fn last_saying<T: Found>(items: Seq<T::V>, text: Seq<char>) -> Option<T::V>
    decreases items.len(),
{
    if items.len() == 0 {
        None
    } else if T::passage(items.last()) == text {
        Some(items.last())
    } else {
        last_saying::<T>(items.drop_last(), text)
    }
}

fn find_saying<'a, T: Found>(items: &'a Vec<T>, text: &str) -> (r: Option<&'a T>)
    ensures
        match last_saying::<T>(item_views(items@), text@) {
            Some(v) => r matches Some(t) && t@ == v,
            None => r is None,
        },
{
    let ghost all = item_views(items@);
    let mut i: usize = items.len();
    assert(all.take(i as int) =~= all);
    while i > 0
        invariant
            i <= items@.len(),
            all == item_views(items@),
            last_saying::<T>(all, text@) == last_saying::<T>(all.take(i as int), text@),
        decreases i,
    {
        proof {
            assert(all.take(i as int).last() == items@[i - 1]@);
            assert(all.take(i as int).drop_last() =~= all.take(i - 1));
        }
        if str_eq(items[i - 1].text().as_str(), text) {
            return Some(&items[i - 1]);
        }
        i -= 1;
    }
    None
}

/// A passage and the score that a model gave it.
pub type RankedPassage = (String, Score);

/// The views of scored passages.
pub open spec fn ranked_views(ranked: Seq<RankedPassage>) -> Seq<(Seq<char>, Score)> {
    ranked.map_values(|p: RankedPassage| (p.0@, p.1))
}

/// The identifiers of things whose passages a model scored high enough, in the order in which it
/// put them, with their scores.
pub open spec fn scored_passages<T: Found>(
    items: Seq<T::V>,
    ranked: Seq<(Seq<char>, Score)>,
    min: Score,
) -> Seq<(Seq<char>, Score)>
    decreases ranked.len(),
{
    if ranked.len() == 0 {
        Seq::empty()
    } else {
        let before = scored_passages::<T>(items, ranked.drop_last(), min);
        match last_saying::<T>(items, ranked.last().0) {
            Some(v) => if ranked.last().1.at_least(min) {
                before.push((T::id(v), ranked.last().1))
            } else {
                before
            },
            None => before,
        }
    }
}

/// Identifiers with their scores.
pub open spec fn scored(uuids: Seq<Seq<char>>, scores: Seq<Score>) -> Seq<(Seq<char>, Score)> {
    Seq::new(uuids.len(), |i: int| (uuids[i], scores[i]))
}

/// The identifiers among scored ones.
pub open spec fn scored_uuids(pairs: Seq<(Seq<char>, Score)>) -> Seq<Seq<char>> {
    pairs.map_values(|p: (Seq<char>, Score)| p.0)
}

/// The scores among scored ones.
pub open spec fn scored_scores(pairs: Seq<(Seq<char>, Score)>) -> Seq<Score> {
    pairs.map_values(|p: (Seq<char>, Score)| p.1)
}

/// The identifiers of things whose passages a model scored high enough, with their scores.
pub fn take_ranked<T: Found>(items: &Vec<T>, ranked: &Vec<RankedPassage>, min: Score) -> (r: (
    Vec<String>,
    Vec<Score>,
))
    ensures
        text::views(r.0@) == scored_uuids(
            scored_passages::<T>(item_views(items@), ranked_views(ranked@), min),
        ),
        r.1@ == scored_scores(
            scored_passages::<T>(item_views(items@), ranked_views(ranked@), min),
        ),
{
    let ghost all = item_views(items@);
    let ghost order = ranked_views(ranked@);
    let mut uuids: Vec<String> = Vec::new();
    let mut scores: Vec<Score> = Vec::new();
    let mut i: usize = 0;
    proof {
        let none = scored_passages::<T>(all, order.take(0), min);
        assert(text::views(uuids@) =~= scored_uuids(none));
        assert(scores@ =~= scored_scores(none));
    }
    while i < ranked.len()
        invariant
            i <= ranked@.len(),
            all == item_views(items@),
            order == ranked_views(ranked@),
            text::views(uuids@) == scored_uuids(
                scored_passages::<T>(all, order.take(i as int), min),
            ),
            scores@ == scored_scores(scored_passages::<T>(all, order.take(i as int), min)),
        decreases ranked.len() - i,
    {
        let ghost done = scored_passages::<T>(all, order.take(i as int), min);
        proof {
            assert(order.take(i as int + 1).drop_last() =~= order.take(i as int));
            assert(order.take(i as int + 1).last() == (ranked@[i as int].0@, ranked@[i as int].1));
        }
        match find_saying(items, ranked[i].0.as_str()) {
            Some(t) => {
                if ranked[i].1.is_at_least(&min) {
                    let ghost before = uuids@;
                    let uuid = t.uuid().clone();
                    let ghost pair = (uuid@, ranked@[i as int].1);
                    uuids.push(uuid);
                    scores.push(ranked[i].1);
                    proof {
                        assert(scored_passages::<T>(all, order.take(i as int + 1), min)
                            == done.push(pair));
                        assert(text::views(uuids@) =~= text::views(before).push(pair.0));
                        assert(scored_uuids(done.push(pair)) =~= scored_uuids(done).push(pair.0));
                        assert(scored_scores(done.push(pair)) =~= scored_scores(done).push(pair.1));
                    }
                }
            },
            None => {},
        }
        i += 1;
    }
    assert(order.take(order.len() as int) =~= order);
    (uuids, scores)
}

} // verus!
