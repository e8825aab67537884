//! Lookup structures over the entities that a new entity may duplicate.
use crate::bignum::BigNat;
use crate::collections::{self, StringMap, StringSet};
use crate::helpers::{self, normalize_string_exact};
use crate::pipeline::dedup_helpers::{
    self, lsh_bands, minhash_signature, normalize_name_for_fuzzy, shingles,
    FUZZY_JACCARD_THRESHOLD_PERCENT,
};
use crate::pipeline::entropy::has_high_entropy;
use crate::text::{self, clone_strings, str_eq};
use crate::types::{self, EntityNode, EntityNodeView};
use vstd::prelude::*;

verus! {

/// A fraction.
#[derive(Clone, Copy, Debug, PartialEq, Eq, Structural)]
pub struct Ratio {
    pub numerator: usize,
    pub denominator: u128,
}

impl Ratio {
    /// Holds where `self` is greater than `other`.
    pub open spec fn exceeds(self, other: Ratio) -> bool {
        other.denominator as nat * self.numerator as nat > self.denominator as nat
            * other.numerator as nat
    }

    /// Holds where `self` is at least `percent` hundredths.
    pub open spec fn reaches(self, percent: nat) -> bool {
        self.numerator * 100 >= self.denominator as nat * percent
    }

    /// Tells whether `self` is greater than `other`.
    pub fn is_above(&self, other: &Ratio) -> (r: bool)
        ensures
            r == self.exceeds(*other),
    {
        let left = BigNat::from_u128(other.denominator).times(self.numerator as u64);
        let right = BigNat::from_u128(self.denominator).times(other.numerator as u64);
        !right.at_least(&left)
    }

    /// Tells whether `self` is at least `percent` hundredths.
    pub fn is_at_least(&self, percent: usize) -> (r: bool)
        ensures
            r == self.reaches(percent as nat),
    {
        let left = BigNat::from_u128(self.numerator as u128 * 100);
        let right = BigNat::from_u128(self.denominator).times(percent as u64);
        left.at_least(&right)
    }
}

/// Holds where `r` is the share of the elements of either set that both have: one where both
/// are empty, and zero where only one is.
pub open spec fn is_jaccard(a: Set<Seq<char>>, b: Set<Seq<char>>, r: Ratio) -> bool {
    if a.len() == 0 && b.len() == 0 {
        r.numerator == 1 && r.denominator == 1
    } else if a.len() == 0 || b.len() == 0 {
        r.numerator == 0 && r.denominator == 1
    } else {
        r.numerator == a.intersect(b).len() && r.denominator == a.union(b).len()
    }
}

/// The share of the elements of either set that both have.
pub open spec fn jaccard(a: Set<Seq<char>>, b: Set<Seq<char>>) -> Ratio {
    choose|r: Ratio| is_jaccard(a, b, r)
}

/// The Jaccard similarity of two sets of shingles: the share of the elements of either that
/// both have.
pub fn jaccard_similarity(a: &StringSet, b: &StringSet) -> (r: Ratio)
    ensures
        is_jaccard(a@, b@, r),
        r == jaccard(a@, b@),
        r.denominator > 0,
{
    let la = a.len();
    let lb = b.len();
    let r = if la == 0 && lb == 0 {
        Ratio { numerator: 1, denominator: 1 }
    } else if la == 0 || lb == 0 {
        Ratio { numerator: 0, denominator: 1 }
    } else {
        let both = a.shared(b);
        proof {
            collections::lemma_union_size(a@, b@);
        }
        Ratio { numerator: both, denominator: (la - both) as u128 + lb as u128 }
    };
    assert(is_jaccard(a@, b@, r));
    r
}

/// The labels other than `Entity`.
pub open spec fn specific_labels(labels: Seq<Seq<char>>) -> Seq<Seq<char>>
    decreases labels.len(),
{
    if labels.len() == 0 {
        Seq::empty()
    } else if labels.last() == "Entity"@ {
        specific_labels(labels.drop_last())
    } else {
        specific_labels(labels.drop_last()).push(labels.last())
    }
}

/// The elements in the order in which they occur first.
pub open spec fn first_seen(s: Seq<Seq<char>>) -> Seq<Seq<char>>
    decreases s.len(),
{
    if s.len() == 0 {
        Seq::empty()
    } else {
        let before = first_seen(s.drop_last());
        if before.contains(s.last()) {
            before
        } else {
            before.push(s.last())
        }
    }
}

/// The labels of a known entity that a new entity duplicates: where only the new entity has
/// a specific type, its specific labels join.
pub open spec fn promoted_labels(extracted: Seq<Seq<char>>, resolved: Seq<Seq<char>>) -> Seq<
    Seq<char>,
> {
    if specific_labels(resolved).len() > 0 || specific_labels(extracted).len() == 0 {
        resolved
    } else {
        first_seen(seq!["Entity"@] + resolved + specific_labels(extracted))
    }
}

/// The known entity with the labels that it has once the new entity is found to duplicate it.
pub open spec fn promoted(extracted: EntityNodeView, resolved: EntityNodeView) -> EntityNodeView {
    EntityNodeView { labels: promoted_labels(extracted.labels, resolved.labels), ..resolved }
}

fn keep_specific(labels: &Vec<String>) -> (r: Vec<String>)
    ensures
        text::views(r@) == specific_labels(text::views(labels@)),
{
    let mut out: Vec<String> = Vec::new();
    let mut i: usize = 0;
    let ghost all = text::views(labels@);
    assert(text::views(out@) =~= specific_labels(all.take(0)));
    while i < labels.len()
        invariant
            i <= labels@.len(),
            all == text::views(labels@),
            text::views(out@) == specific_labels(all.take(i as int)),
        decreases labels.len() - i,
    {
        assert(all.take(i as int + 1).drop_last() =~= all.take(i as int));
        assert(all.take(i as int + 1).last() == labels@[i as int]@);
        if !str_eq(labels[i].as_str(), "Entity") {
            let ghost before = out@;
            out.push(labels[i].clone());
            assert(text::views(out@) =~= text::views(before).push(labels@[i as int]@));
        }
        i += 1;
    }
    assert(all.take(all.len() as int) =~= all);
    out
}

/// Tells whether a list holds a string.
pub fn holds(list: &Vec<String>, s: &str) -> (r: bool)
    ensures
        r == text::views(list@).contains(s@),
{
    let mut i: usize = 0;
    while i < list.len()
        invariant
            i <= list@.len(),
            forall|j: int| 0 <= j < i ==> text::views(list@)[j] != s@,
        decreases list.len() - i,
    {
        assert(text::views(list@)[i as int] == list@[i as int]@);
        if str_eq(list[i].as_str(), s) {
            assert(text::views(list@).contains(s@));
            return true;
        }
        i += 1;
    }
    false
}

/// Appends the strings of `from` that `into` does not hold yet.
pub(crate) fn append_missing(
    into: &mut Vec<String>,
    from: &Vec<String>,
    Ghost(done): Ghost<Seq<Seq<char>>>,
)
    requires
        text::views(old(into)@) == first_seen(done),
    ensures
        text::views(final(into)@) == first_seen(done + text::views(from@)),
{
    let ghost more = text::views(from@);
    let mut i: usize = 0;
    assert(done + more.take(0) =~= done);
    while i < from.len()
        invariant
            i <= from@.len(),
            more == text::views(from@),
            text::views(into@) == first_seen(done + more.take(i as int)),
        decreases from.len() - i,
    {
        proof {
            let next = done + more.take(i as int + 1);
            assert(next.drop_last() =~= done + more.take(i as int));
            assert(next.last() == from@[i as int]@);
        }
        if !holds(into, from[i].as_str()) {
            let ghost before = into@;
            into.push(from[i].clone());
            assert(text::views(into@) =~= text::views(before).push(from@[i as int]@));
        }
        i += 1;
    }
    assert(more.take(more.len() as int) =~= more);
}

/// The known entity that a new entity duplicates, upgraded by the specific type of the new
/// one where it has none itself.
pub fn promote_resolved_node(extracted_node: &EntityNode, resolved_node: &EntityNode) -> (r:
    EntityNode)
    ensures
        r@ == promoted(extracted_node@, resolved_node@),
{
    let resolved_specific = keep_specific(&resolved_node.labels);
    assert(text::views(resolved_specific@).len() == resolved_specific@.len());
    if resolved_specific.len() > 0 {
        return resolved_node.clone();
    }
    let extracted_specific = keep_specific(&extracted_node.labels);
    assert(text::views(extracted_specific@).len() == extracted_specific@.len());
    if extracted_specific.len() == 0 {
        return resolved_node.clone();
    }
    let mut labels: Vec<String> = crate::text::single("Entity");
    let ghost start = seq!["Entity"@];
    proof {
        assert(start.drop_last() =~= Seq::<Seq<char>>::empty());
        assert(first_seen(start.drop_last()) =~= Seq::<Seq<char>>::empty());
        assert(first_seen(start) =~= start);
    }
    append_missing(&mut labels, &resolved_node.labels, Ghost(start));
    append_missing(
        &mut labels,
        &extracted_specific,
        Ghost(start + text::views(resolved_node.labels@)),
    );
    let mut out = resolved_node.clone();
    out.labels = labels;
    out
}

/// The entities that share one band of their signatures.
#[derive(Debug)]
pub struct LshBucket {
    pub band_index: usize,
    pub band: Vec<u64>,
    /// The entities in the order in which they were indexed.
    pub uuids: Vec<String>,
}

/// Lookup structures over the entities that a new entity may duplicate.
#[derive(Debug)]
pub struct DedupCandidateIndexes {
    pub existing_nodes: Vec<EntityNode>,
    pub nodes_by_uuid: StringMap<EntityNode>,
    pub normalized_existing: StringMap<Vec<EntityNode>>,
    pub shingles_by_candidate: StringMap<StringSet>,
    pub lsh_buckets: Vec<LshBucket>,
}

/// The identifiers in the first bucket for a band.
pub open spec fn bucket_uuids(buckets: Seq<LshBucket>, index: int, band: Seq<u64>) -> Seq<Seq<char>>
    decreases buckets.len(),
{
    if buckets.len() == 0 {
        Seq::empty()
    } else if buckets[0].band_index == index && buckets[0].band@ == band {
        text::views(buckets[0].uuids@)
    } else {
        bucket_uuids(buckets.skip(1), index, band)
    }
}

/// The bands of the signature of a name.
pub open spec fn name_bands(name: Seq<char>) -> Seq<Seq<u64>> {
    dedup_helpers::bands(
        dedup_helpers::signature(dedup_helpers::shingle_set(dedup_helpers::fuzzy_name(name))),
    )
}

/// Among `nodes` those with the normal form `normal`, in order.
pub open spec fn nodes_named(nodes: Seq<EntityNodeView>, normal: Seq<char>) -> Seq<EntityNodeView>
    decreases nodes.len(),
{
    if nodes.len() == 0 {
        Seq::empty()
    } else {
        let before = nodes_named(nodes.drop_last(), normal);
        if helpers::normal_form(nodes.last().name) == normal {
            before.push(nodes.last())
        } else {
            before
        }
    }
}

/// The identifiers of those among `nodes` whose band at `index` is `band`, in order.
pub open spec fn nodes_in_bucket(nodes: Seq<EntityNodeView>, index: int, band: Seq<u64>) -> Seq<
    Seq<char>,
>
    decreases nodes.len(),
{
    if nodes.len() == 0 {
        Seq::empty()
    } else {
        let before = nodes_in_bucket(nodes.drop_last(), index, band);
        let own = name_bands(nodes.last().name);
        if 0 <= index < own.len() && own[index] == band {
            before.push(nodes.last().uuid)
        } else {
            before
        }
    }
}

/// The last among `nodes` with the identifier.
pub open spec fn last_with_uuid(nodes: Seq<EntityNodeView>, uuid: Seq<char>) -> Option<EntityNodeView>
    decreases nodes.len(),
{
    if nodes.len() == 0 {
        None
    } else if nodes.last().uuid == uuid {
        Some(nodes.last())
    } else {
        last_with_uuid(nodes.drop_last(), uuid)
    }
}

/// Holds where the map gives every identifier the last node that has it, and its shingles.
pub open spec fn uuid_index_of(
    by_uuid: Map<Seq<char>, EntityNode>,
    by_shingles: Map<Seq<char>, StringSet>,
    nodes: Seq<EntityNodeView>,
) -> bool {
    &&& forall|u: Seq<char>| #[trigger]
        by_uuid.dom().contains(u) <==> last_with_uuid(nodes, u) is Some
    &&& forall|u: Seq<char>| #[trigger]
        by_shingles.dom().contains(u) <==> last_with_uuid(nodes, u) is Some
    &&& forall|u: Seq<char>| #[trigger]
        by_uuid.dom().contains(u) ==> last_with_uuid(nodes, u) == Some(by_uuid[u]@)
    &&& forall|u: Seq<char>| #[trigger]
        by_shingles.dom().contains(u) ==> by_shingles[u]@ == dedup_helpers::shingle_set(
            dedup_helpers::fuzzy_name(last_with_uuid(nodes, u)->0.name),
        )
}

/// Holds where the map gives every normal form the nodes that have it.
pub open spec fn name_index_of(by_name: Map<Seq<char>, Vec<EntityNode>>, nodes: Seq<EntityNodeView>) -> bool {
    forall|n: Seq<char>|
        if #[trigger] by_name.dom().contains(n) {
            types::node_views(by_name[n]@) == nodes_named(nodes, n)
        } else {
            nodes_named(nodes, n).len() == 0
        }
}

/// Holds where the buckets give every band the nodes that have it.
pub open spec fn bucket_index_of(buckets: Seq<LshBucket>, nodes: Seq<EntityNodeView>) -> bool {
    forall|i: int, b: Seq<u64>| #[trigger] bucket_uuids(buckets, i, b) == nodes_in_bucket(
        nodes,
        i,
        b,
    )
}

impl DedupCandidateIndexes {
    /// Holds where the structures index `nodes`.
    pub open spec fn indexes(&self, nodes: Seq<EntityNodeView>) -> bool {
        &&& types::node_views(self.existing_nodes@) == nodes
        &&& uuid_index_of(self.nodes_by_uuid@, self.shingles_by_candidate@, nodes)
        &&& name_index_of(self.normalized_existing@, nodes)
        &&& bucket_index_of(self.lsh_buckets@, nodes)
    }
}

proof fn lemma_bucket_at(buckets: Seq<LshBucket>, k: int, index: int, band: Seq<u64>)
    requires
        0 <= k < buckets.len(),
        buckets[k].band_index == index && buckets[k].band@ == band,
        forall|j: int|
            0 <= j < k ==> !(
                (#[trigger] buckets[j]).band_index == index && buckets[j].band@ == band
            ),
    ensures
        bucket_uuids(buckets, index, band) == text::views(buckets[k].uuids@),
    decreases k,
{
    if k > 0 {
        assert(!(buckets[0].band_index == index && buckets[0].band@ == band));
        let rest = buckets.skip(1);
        assert(rest[k - 1] == buckets[k]);
        assert forall|j: int| 0 <= j < k - 1 implies !((#[trigger] rest[j]).band_index == index
            && rest[j].band@ == band) by {
            assert(rest[j] == buckets[j + 1]);
        }
        lemma_bucket_at(rest, k - 1, index, band);
    }
}

proof fn lemma_bucket_none(buckets: Seq<LshBucket>, index: int, band: Seq<u64>)
    requires
        forall|j: int|
            0 <= j < buckets.len() ==> !((#[trigger] buckets[j]).band_index == index
                && buckets[j].band@ == band),
    ensures
        bucket_uuids(buckets, index, band) == Seq::<Seq<char>>::empty(),
    decreases buckets.len(),
{
    if buckets.len() > 0 {
        let rest = buckets.skip(1);
        assert forall|j: int| 0 <= j < rest.len() implies !((#[trigger] rest[j]).band_index == index
            && rest[j].band@ == band) by {
            assert(rest[j] == buckets[j + 1]);
        }
        lemma_bucket_none(rest, index, band);
    }
}

/// A bucket that agrees with another up to its contents stands in the same place.
proof fn lemma_bucket_update(
    before: Seq<LshBucket>,
    after: Seq<LshBucket>,
    k: int,
    index: int,
    band: Seq<u64>,
)
    requires
        before.len() == after.len(),
        0 <= k < before.len(),
        forall|j: int|
            0 <= j < before.len() ==> (#[trigger] after[j]).band_index == before[j].band_index
                && after[j].band@ == before[j].band@,
        forall|j: int|
            0 <= j < before.len() && j != k ==> text::views((#[trigger] after[j]).uuids@) == text::views(
                before[j].uuids@,
            ),
        !(before[k].band_index == index && before[k].band@ == band),
    ensures
        bucket_uuids(after, index, band) == bucket_uuids(before, index, band),
    decreases before.len(),
{
    assert(after[0].band_index == before[0].band_index);
    if !(before[0].band_index == index && before[0].band@ == band) {
        let b = before.skip(1);
        let a = after.skip(1);
        assert forall|j: int| 0 <= j < b.len() implies (#[trigger] a[j]).band_index
            == b[j].band_index && a[j].band@ == b[j].band@ by {
            assert(after[j + 1].band_index == before[j + 1].band_index);
        }
        if k > 0 {
            assert forall|j: int| 0 <= j < b.len() && j != k - 1 implies text::views(
                (#[trigger] a[j]).uuids@,
            ) == text::views(b[j].uuids@) by {
                assert(text::views(after[j + 1].uuids@) == text::views(before[j + 1].uuids@));
            }
            lemma_bucket_update(b, a, k - 1, index, band);
        } else {
            lemma_bucket_same(b, a, index, band, before, after);
        }
    }
}

proof fn lemma_bucket_same(
    b: Seq<LshBucket>,
    a: Seq<LshBucket>,
    index: int,
    band: Seq<u64>,
    before: Seq<LshBucket>,
    after: Seq<LshBucket>,
)
    requires
        b.len() == a.len(),
        before.len() == after.len() == b.len() + 1,
        forall|j: int| 0 <= j < b.len() ==> #[trigger] b[j] == before[j + 1],
        forall|j: int| 0 <= j < a.len() ==> #[trigger] a[j] == after[j + 1],
        forall|j: int|
            0 <= j < before.len() ==> (#[trigger] after[j]).band_index == before[j].band_index
                && after[j].band@ == before[j].band@,
        forall|j: int|
            1 <= j < before.len() ==> text::views((#[trigger] after[j]).uuids@) == text::views(
                before[j].uuids@,
            ),
    ensures
        bucket_uuids(a, index, band) == bucket_uuids(b, index, band),
    decreases b.len(),
{
    if b.len() > 0 {
        assert(b[0] == before[1] && a[0] == after[1]);
        if !(b[0].band_index == index && b[0].band@ == band) {
            let b2 = b.skip(1);
            let a2 = a.skip(1);
            assert forall|j: int| 0 <= j < b2.len() implies #[trigger] b2[j] == before.skip(1)[j
                + 1] by {
                assert(b[j + 1] == before[j + 2]);
            }
            assert forall|j: int| 0 <= j < a2.len() implies #[trigger] a2[j] == after.skip(1)[j
                + 1] by {
                assert(a[j + 1] == after[j + 2]);
            }
            assert forall|j: int| 0 <= j < before.skip(1).len() implies (#[trigger] after.skip(
                1,
            )[j]).band_index == before.skip(1)[j].band_index && after.skip(1)[j].band@
                == before.skip(1)[j].band@ by {
                assert(after[j + 1].band_index == before[j + 1].band_index);
            }
            assert forall|j: int| 1 <= j < before.skip(1).len() implies text::views(
                (#[trigger] after.skip(1)[j]).uuids@,
            ) == text::views(before.skip(1)[j].uuids@) by {
                assert(text::views(after[j + 1].uuids@) == text::views(before[j + 1].uuids@));
            }
            lemma_bucket_same(b2, a2, index, band, before.skip(1), after.skip(1));
        }
    }
}

proof fn lemma_bucket_push(buckets: Seq<LshBucket>, last: LshBucket, index: int, band: Seq<u64>)
    ensures
        bucket_uuids(buckets.push(last), index, band) == (if bucket_holds(buckets, index, band) {
            bucket_uuids(buckets, index, band)
        } else if last.band_index == index && last.band@ == band {
            text::views(last.uuids@)
        } else {
            Seq::empty()
        }),
    decreases buckets.len(),
{
    let all = buckets.push(last);
    if buckets.len() == 0 {
        assert(all.skip(1) =~= Seq::<LshBucket>::empty());
        assert(bucket_uuids(all.skip(1), index, band) == Seq::<Seq<char>>::empty());
        assert(all[0] == last);
        assert(!bucket_holds(buckets, index, band));
    } else {
        assert(all[0] == buckets[0]);
        if buckets[0].band_index == index && buckets[0].band@ == band {
            assert(bucket_holds(buckets, index, band));
        } else {
            assert(all.skip(1) =~= buckets.skip(1).push(last));
            lemma_bucket_push(buckets.skip(1), last, index, band);
            if bucket_holds(buckets, index, band) {
                let j = choose|j: int|
                    0 <= j < buckets.len() && (#[trigger] buckets[j]).band_index == index
                        && buckets[j].band@ == band;
                assert(buckets.skip(1)[j - 1] == buckets[j]);
            }
            if bucket_holds(buckets.skip(1), index, band) {
                let j = choose|j: int|
                    0 <= j < buckets.skip(1).len() && (#[trigger] buckets.skip(1)[j]).band_index
                        == index && buckets.skip(1)[j].band@ == band;
                assert(buckets[j + 1] == buckets.skip(1)[j]);
            }
        }
    }
}

/// Holds where there is a bucket for the band.
spec fn bucket_holds(buckets: Seq<LshBucket>, index: int, band: Seq<u64>) -> bool {
    exists|j: int|
        0 <= j < buckets.len() && (#[trigger] buckets[j]).band_index == index && buckets[j].band@
            == band
}

fn same_band(a: &Vec<u64>, b: &Vec<u64>) -> (r: bool)
    ensures
        r == (a@ == b@),
{
    if a.len() != b.len() {
        return false;
    }
    let mut i: usize = 0;
    while i < a.len()
        invariant
            i <= a@.len(),
            a@.len() == b@.len(),
            forall|j: int| 0 <= j < i ==> a@[j] == b@[j],
        decreases a.len() - i,
    {
        if a[i] != b[i] {
            return false;
        }
        i += 1;
    }
    assert(a@ =~= b@);
    true
}

/// The position of the first bucket for a band.
fn find_bucket(buckets: &Vec<LshBucket>, index: usize, band: &Vec<u64>) -> (r: Option<usize>)
    ensures
        match r {
            Some(k) => k < buckets@.len() && buckets@[k as int].band_index == index
                && buckets@[k as int].band@ == band@ && bucket_uuids(buckets@, index as int, band@)
                == text::views(buckets@[k as int].uuids@) && forall|j: int|
                0 <= j < k ==> !((#[trigger] buckets@[j]).band_index == index && buckets@[j].band@
                    == band@),
            None => !bucket_holds(buckets@, index as int, band@) && bucket_uuids(
                buckets@,
                index as int,
                band@,
            ) == Seq::<Seq<char>>::empty(),
        },
{
    let mut k: usize = 0;
    while k < buckets.len()
        invariant
            k <= buckets@.len(),
            forall|j: int|
                0 <= j < k ==> !((#[trigger] buckets@[j]).band_index == index && buckets@[j].band@
                    == band@),
        decreases buckets.len() - k,
    {
        if buckets[k].band_index == index && same_band(&buckets[k].band, band) {
            proof {
                lemma_bucket_at(buckets@, k as int, index as int, band@);
            }
            return Some(k);
        }
        k += 1;
    }
    proof {
        lemma_bucket_none(buckets@, index as int, band@);
    }
    None
}

/// Adds an identifier to the bucket for a band.
fn add_to_bucket(buckets: &mut Vec<LshBucket>, index: usize, band: Vec<u64>, uuid: &String)
    ensures
        forall|i: int, b: Seq<u64>| #[trigger]
            bucket_uuids(final(buckets)@, i, b) == (if i == index && b == band@ {
                bucket_uuids(old(buckets)@, i, b).push(uuid@)
            } else {
                bucket_uuids(old(buckets)@, i, b)
            }),
{
    let ghost before = buckets@;
    match find_bucket(buckets, index, &band) {
        Some(k) => {
            let mut uuids = clone_strings(&buckets[k].uuids);
            let ghost old_uuids = uuids@;
            uuids.push(uuid.clone());
            assert(text::views(uuids@) =~= text::views(old_uuids).push(uuid@));
            let ghost b0 = band@;
            buckets.set(k, LshBucket { band_index: index, band, uuids });
            proof {
                assert forall|i: int, b: Seq<u64>| #[trigger]
                    bucket_uuids(buckets@, i, b) == (if i == index && b == b0 {
                        bucket_uuids(before, i, b).push(uuid@)
                    } else {
                        bucket_uuids(before, i, b)
                    }) by {
                    if i == index && b == b0 {
                        lemma_first_bucket(before, buckets@, k as int, i, b);
                    } else {
                        lemma_bucket_update(before, buckets@, k as int, i, b);
                    }
                }
            }
        },
        None => {
            let mut uuids: Vec<String> = Vec::new();
            uuids.push(uuid.clone());
            assert(text::views(uuids@) =~= Seq::<Seq<char>>::empty().push(uuid@));
            let bucket = LshBucket { band_index: index, band, uuids };
            buckets.push(bucket);
            proof {
                assert forall|i: int, b: Seq<u64>| #[trigger]
                    bucket_uuids(buckets@, i, b) == (if i == index && b == band@ {
                        bucket_uuids(before, i, b).push(uuid@)
                    } else {
                        bucket_uuids(before, i, b)
                    }) by {
                    lemma_bucket_push(before, bucket, i, b);
                    if !bucket_holds(before, i, b) {
                        lemma_bucket_none(before, i, b);
                    }
                }
            }
        },
    }
}

proof fn lemma_first_bucket(
    before: Seq<LshBucket>,
    after: Seq<LshBucket>,
    k: int,
    index: int,
    band: Seq<u64>,
)
    requires
        before.len() == after.len(),
        0 <= k < before.len(),
        forall|j: int| 0 <= j < before.len() && j != k ==> #[trigger] after[j] == before[j],
        after[k].band_index == before[k].band_index == index,
        after[k].band@ == before[k].band@,
        before[k].band@ == band,
        bucket_uuids(before, index, band) == text::views(before[k].uuids@),
        forall|j: int|
            0 <= j < k ==> !((#[trigger] before[j]).band_index == index && before[j].band@ == band),
    ensures
        bucket_uuids(after, index, band) == text::views(after[k].uuids@),
{
    assert forall|j: int| 0 <= j < k implies !((#[trigger] after[j]).band_index == index
        && after[j].band@ == band) by {
        assert(after[j] == before[j]);
    }
    lemma_bucket_at(after, k, index, band);
}

/// Adds a node to the nodes under its normal form.
fn add_to_names(
    by_name: &mut StringMap<Vec<EntityNode>>,
    node: &EntityNode,
    Ghost(nodes): Ghost<Seq<EntityNodeView>>,
)
    requires
        name_index_of(old(by_name)@, nodes),
    ensures
        name_index_of(final(by_name)@, nodes.push(node@)),
{
    let ghost before = by_name@;
    let normal = normalize_string_exact(node.name.as_str());
    let mut list: Vec<EntityNode> = match by_name.remove(normal.as_str()) {
        Some(v) => v,
        None => Vec::new(),
    };
    let ghost old_list = list@;
    list.push(node.clone());
    let ghost n0 = normal@;
    by_name.insert(normal, list);
    proof {
        let more = nodes.push(node@);
        assert(more.drop_last() =~= nodes);
        assert(types::node_views(list@) =~= types::node_views(old_list).push(node@));
        assert forall|n: Seq<char>|
            if #[trigger] by_name@.dom().contains(n) {
                types::node_views(by_name@[n]@) == nodes_named(more, n)
            } else {
                nodes_named(more, n).len() == 0
            } by {
            assert(before.dom().contains(n) || !before.dom().contains(n));
            if n == n0 {
                if !before.dom().contains(n) {
                    assert(nodes_named(nodes, n) =~= Seq::<EntityNodeView>::empty());
                    assert(types::node_views(old_list) =~= Seq::<EntityNodeView>::empty());
                }
            }
        }
    }
}

/// Adds a node to the buckets of its bands.
fn add_to_buckets(
    buckets: &mut Vec<LshBucket>,
    own: &Vec<Vec<u64>>,
    node: &EntityNode,
    Ghost(nodes): Ghost<Seq<EntityNodeView>>,
)
    requires
        bucket_index_of(old(buckets)@, nodes),
        dedup_helpers::band_views(own@) == name_bands(node.name@),
    ensures
        bucket_index_of(final(buckets)@, nodes.push(node@)),
{
    let ghost all = name_bands(node.name@);
    let mut k: usize = 0;
    while k < own.len()
        invariant
            k <= own@.len(),
            dedup_helpers::band_views(own@) == all,
            own@.len() == all.len(),
            forall|i: int, b: Seq<u64>| #[trigger]
                bucket_uuids(buckets@, i, b) == (if 0 <= i < k && all[i] == b {
                    nodes_in_bucket(nodes, i, b).push(node.uuid@)
                } else {
                    nodes_in_bucket(nodes, i, b)
                }),
        decreases own.len() - k,
    {
        let band = own[k].clone();
        assert(band@ =~= own@[k as int]@);
        assert(all[k as int] == own@[k as int]@);
        add_to_bucket(buckets, k, band, &node.uuid);
        k += 1;
    }
    proof {
        let more = nodes.push(node@);
        assert(more.drop_last() =~= nodes);
        assert forall|i: int, b: Seq<u64>| #[trigger]
            bucket_uuids(buckets@, i, b) == nodes_in_bucket(more, i, b) by {}
    }
}

/// Indexes the entities that a new entity may duplicate: by identifier, by normal form, and
/// by the bands of their signatures.
pub fn build_candidate_indexes(existing_nodes: Vec<EntityNode>) -> (r: DedupCandidateIndexes)
    ensures
        r.indexes(types::node_views(existing_nodes@)),
        r@ == candidates_among(types::node_views(existing_nodes@)),
{
    let mut nodes_by_uuid: StringMap<EntityNode> = StringMap::new();
    let mut normalized_existing: StringMap<Vec<EntityNode>> = StringMap::new();
    let mut shingles_by_candidate: StringMap<StringSet> = StringMap::new();
    let mut lsh_buckets: Vec<LshBucket> = Vec::new();
    let ghost nodes = types::node_views(existing_nodes@);
    let mut i: usize = 0;
    while i < existing_nodes.len()
        invariant
            i <= existing_nodes@.len(),
            nodes == types::node_views(existing_nodes@),
            uuid_index_of(nodes_by_uuid@, shingles_by_candidate@, nodes.take(i as int)),
            name_index_of(normalized_existing@, nodes.take(i as int)),
            bucket_index_of(lsh_buckets@, nodes.take(i as int)),
        decreases existing_nodes.len() - i,
    {
        let node = &existing_nodes[i];
        let ghost prefix = nodes.take(i as int);
        assert(nodes.take(i as int + 1) =~= prefix.push(node@));
        assert(prefix.push(node@).drop_last() =~= prefix);
        add_to_names(&mut normalized_existing, node, Ghost(prefix));
        nodes_by_uuid.insert(node.uuid.clone(), node.clone());
        let fuzzy = normalize_name_for_fuzzy(node.name.as_str());
        let set = shingles(fuzzy.as_str());
        let signature = minhash_signature(&set);
        let own = lsh_bands(signature.as_slice());
        shingles_by_candidate.insert(node.uuid.clone(), set);
        add_to_buckets(&mut lsh_buckets, &own, node, Ghost(prefix));
        i += 1;
    }
    assert(nodes.take(nodes.len() as int) =~= nodes);
    let r = DedupCandidateIndexes {
        existing_nodes,
        nodes_by_uuid,
        normalized_existing,
        shingles_by_candidate,
        lsh_buckets,
    };
    proof {
        lemma_index_answers(r, nodes);
    }
    r
}

/// What the lookup structures answer.
pub struct Candidates {
    /// The known entities.
    pub known: Seq<EntityNodeView>,
    /// The known entities whose names have a normal form.
    pub named: spec_fn(Seq<char>) -> Seq<EntityNodeView>,
    /// The identifiers of the known entities with a band at a position.
    pub in_bucket: spec_fn(int, Seq<u64>) -> Seq<Seq<char>>,
    /// The shingles of the known entity with an identifier; none where there is no such entity.
    pub shingles: spec_fn(Seq<char>) -> Set<Seq<char>>,
    /// The known entity with an identifier.
    pub with_uuid: spec_fn(Seq<char>) -> Option<EntityNodeView>,
}

impl View for DedupCandidateIndexes {
    type V = Candidates;

    open spec fn view(&self) -> Candidates {
        Candidates {
            known: types::node_views(self.existing_nodes@),
            named: |n: Seq<char>|
                if self.normalized_existing@.dom().contains(n) {
                    types::node_views(self.normalized_existing@[n]@)
                } else {
                    Seq::empty()
                },
            in_bucket: |i: int, b: Seq<u64>| bucket_uuids(self.lsh_buckets@, i, b),
            shingles: |u: Seq<char>|
                if self.shingles_by_candidate@.dom().contains(u) {
                    self.shingles_by_candidate@[u]@
                } else {
                    Set::empty()
                },
            with_uuid: |u: Seq<char>|
                if self.nodes_by_uuid@.dom().contains(u) {
                    Some(self.nodes_by_uuid@[u]@)
                } else {
                    None
                },
        }
    }
}

/// What lookup structures over `nodes` answer.
pub open spec fn candidates_among(nodes: Seq<EntityNodeView>) -> Candidates {
    Candidates {
        known: nodes,
        named: |n: Seq<char>| nodes_named(nodes, n),
        in_bucket: |i: int, b: Seq<u64>| nodes_in_bucket(nodes, i, b),
        shingles: |u: Seq<char>|
            match last_with_uuid(nodes, u) {
                Some(node) => dedup_helpers::shingle_set(dedup_helpers::fuzzy_name(node.name)),
                None => Set::empty(),
            },
        with_uuid: |u: Seq<char>| last_with_uuid(nodes, u),
    }
}

proof fn lemma_index_answers(indexes: DedupCandidateIndexes, nodes: Seq<EntityNodeView>)
    requires
        indexes.indexes(nodes),
    ensures
        indexes@ == candidates_among(nodes),
{
    let a = indexes@;
    let b = candidates_among(nodes);
    assert forall|n: Seq<char>| #[trigger] (a.named)(n) == (b.named)(n) by {
        if !indexes.normalized_existing@.dom().contains(n) {
            assert(nodes_named(nodes, n) =~= Seq::<EntityNodeView>::empty());
        }
    }
    assert(a.named =~= b.named);
    assert(a.in_bucket =~= b.in_bucket);
    assert forall|u: Seq<char>| #[trigger] (a.shingles)(u) == (b.shingles)(u) by {
        assert(indexes.shingles_by_candidate@.dom().contains(u) <==> last_with_uuid(nodes, u)
            is Some);
    }
    assert(a.shingles =~= b.shingles);
    assert forall|u: Seq<char>| #[trigger] (a.with_uuid)(u) == (b.with_uuid)(u) by {
        assert(indexes.nodes_by_uuid@.dom().contains(u) <==> last_with_uuid(nodes, u) is Some);
    }
    assert(a.with_uuid =~= b.with_uuid);
}

/// The identifiers in the buckets of the first `k` bands.
pub open spec fn sharing_a_band(c: Candidates, own: Seq<Seq<u64>>, k: nat) -> Set<Seq<char>>
    decreases k,
{
    if k == 0 {
        Set::empty()
    } else {
        sharing_a_band(c, own, (k - 1) as nat).union((c.in_bucket)(k - 1, own[k - 1]).to_set())
    }
}

/// The similarity of a known entity to a set of shingles.
pub open spec fn similarity(c: Candidates, own: Set<Seq<char>>, uuid: Seq<char>) -> Ratio {
    jaccard(own, (c.shingles)(uuid))
}

/// Holds where no candidate is more similar than `uuid`, and none as similar comes before it.
pub open spec fn is_most_similar(
    c: Candidates,
    own: Set<Seq<char>>,
    uuids: Set<Seq<char>>,
    uuid: Seq<char>,
) -> bool {
    &&& uuids.contains(uuid)
    &&& forall|v: Seq<char>| #[trigger]
        uuids.contains(v) ==> {
            &&& !similarity(c, own, v).exceeds(similarity(c, own, uuid))
            &&& text::str_lt(v, uuid) ==> similarity(c, own, uuid).exceeds(
                similarity(c, own, v),
            )
        }
}

/// The known entity that approximate matching takes a name for: among those that share a band
/// with it, the most similar one, if it is similar enough.
pub open spec fn fuzzy_match(c: Candidates, name: Seq<char>) -> Option<EntityNodeView> {
    let fuzzy = dedup_helpers::fuzzy_name(name);
    let own = dedup_helpers::shingle_set(fuzzy);
    let own_bands = name_bands(name);
    let uuids = sharing_a_band(c, own_bands, own_bands.len());
    let best = choose|u: Seq<char>| is_most_similar(c, own, uuids, u);
    if !crate::pipeline::entropy::high_entropy(fuzzy) {
        None
    } else if is_most_similar(c, own, uuids, best) && similarity(c, own, best).reaches(
        FUZZY_JACCARD_THRESHOLD_PERCENT as nat,
    ) {
        (c.with_uuid)(best)
    } else {
        None
    }
}

/// The known entity that a new one duplicates: the only one with the same normal form of its
/// name, or where none has it, the most similar one that is similar enough. Several with the
/// same normal form are ambiguous.
pub open spec fn similar_entity(c: Candidates, node: EntityNodeView) -> Option<EntityNodeView> {
    let exact = (c.named)(helpers::normal_form(node.name));
    if exact.len() == 1 {
        Some(promoted(node, exact[0]))
    } else if exact.len() > 1 {
        None
    } else {
        match fuzzy_match(c, node.name) {
            Some(found) => Some(promoted(node, found)),
            None => None,
        }
    }
}

/// The identifiers that share a band with a signature.
fn collect_candidates(indexes: &DedupCandidateIndexes, own: &Vec<Vec<u64>>) -> (r: StringSet)
    ensures
        r@ == sharing_a_band(indexes@, dedup_helpers::band_views(own@), own@.len()),
{
    let mut out = StringSet::new();
    let ghost all = dedup_helpers::band_views(own@);
    let mut k: usize = 0;
    while k < own.len()
        invariant
            k <= own@.len(),
            all == dedup_helpers::band_views(own@),
            out@ == sharing_a_band(indexes@, all, k as nat),
        decreases own.len() - k,
    {
        assert(all[k as int] == own@[k as int]@);
        let ghost before = out@;
        match find_bucket(&indexes.lsh_buckets, k, &own[k]) {
            Some(at) => {
                let uuids = &indexes.lsh_buckets[at].uuids;
                let ghost ids = text::views(uuids@);
                let mut j: usize = 0;
                assert(before.union(ids.take(0).to_set()) =~= before);
                while j < uuids.len()
                    invariant
                        j <= uuids@.len(),
                        ids == text::views(uuids@),
                        out@ == before.union(ids.take(j as int).to_set()),
                    decreases uuids.len() - j,
                {
                    proof {
                        collections::lemma_take_contains(ids, j as int);
                    }
                    out.insert(uuids[j].clone());
                    assert(out@ =~= before.union(ids.take(j as int + 1).to_set()));
                    j += 1;
                }
                assert(ids.take(ids.len() as int) =~= ids);
            },
            None => {
                assert(out@ =~= before.union(Seq::<Seq<char>>::empty().to_set()));
            },
        }
        k += 1;
    }
    out
}

/// The order of fractions is transitive.
pub proof fn lemma_exceeds_transitive(a: Ratio, b: Ratio, c: Ratio)
    requires
        a.denominator > 0,
        b.denominator > 0,
        c.denominator > 0,
    ensures
        a.exceeds(b) && !c.exceeds(b) ==> a.exceeds(c),
        a.exceeds(b) && b.exceeds(c) ==> a.exceeds(c),
        !a.exceeds(b) && !b.exceeds(c) ==> !a.exceeds(c),
{
    let (an, ad) = (a.numerator as nat, a.denominator as nat);
    let (bn, bd) = (b.numerator as nat, b.denominator as nat);
    let (cn, cd) = (c.numerator as nat, c.denominator as nat);
    if bd * an > ad * bn && cn * bd <= bn * cd {
        assert(cd * an > ad * cn) by (nonlinear_arith)
            requires
                bd * an > ad * bn,
                cn * bd <= bn * cd,
                ad > 0,
                bd > 0,
                cd > 0,
        ;
    }
    if bd * an > ad * bn && cd * bn > bd * cn {
        assert(cd * an > ad * cn) by (nonlinear_arith)
            requires
                bd * an > ad * bn,
                cd * bn > bd * cn,
                ad > 0,
                bd > 0,
                cd > 0,
        ;
    }
    if bd * an <= ad * bn && cd * bn <= bd * cn {
        assert(cd * an <= ad * cn) by (nonlinear_arith)
            requires
                bd * an <= ad * bn,
                cd * bn <= bd * cn,
                ad > 0,
                bd > 0,
                cd > 0,
        ;
    }
    assert(cn * bd == bd * cn) by (nonlinear_arith);
    assert(bn * cd == cd * bn) by (nonlinear_arith);
}

/// Two candidates that are both the most similar are the same.
pub proof fn lemma_most_similar_unique(
    c: Candidates,
    own: Set<Seq<char>>,
    candidates: Set<Seq<char>>,
    a: Seq<char>,
    b: Seq<char>,
)
    requires
        is_most_similar(c, own, candidates, a),
        is_most_similar(c, own, candidates, b),
    ensures
        a == b,
{
    text::lemma_str_lt_total(a, b);
    assert(candidates.contains(a) && candidates.contains(b));
}

/// The known entity that approximate matching takes a name for.
fn find_fuzzy(indexes: &DedupCandidateIndexes, name: &str) -> (r: Option<EntityNode>)
    ensures
        match r {
            Some(n) => fuzzy_match(indexes@, name@) == Some(n@),
            None => fuzzy_match(indexes@, name@) is None,
        },
{
    let fuzzy = normalize_name_for_fuzzy(name);
    if !has_high_entropy(fuzzy.as_str()) {
        return None;
    }
    let own = shingles(fuzzy.as_str());
    let signature = minhash_signature(&own);
    let own_bands = lsh_bands(signature.as_slice());
    let candidates = collect_candidates(indexes, &own_bands);
    let n = candidates.len();
    let ghost set = candidates@;
    let ghost all = candidates.elements();
    proof {
        assert(set == sharing_a_band(
            indexes@,
            name_bands(name@),
            name_bands(name@).len(),
        ));
    }
    if n == 0 {
        proof {
            assert forall|u: Seq<char>| !is_most_similar(indexes@, own@, set, u) by {
                if set.contains(u) {
                    assert(all.contains(u));
                }
            }
        }
        return None;
    }
    let unknown = StringSet::new();
    let mut best: usize = 0;
    let mut best_score: Ratio = score_candidate(indexes, &own, candidates.at(0), &unknown);
    let mut i: usize = 1;
    while i < n
        invariant
            1 <= i <= n,
            best < i,
            n == all.len(),
            set == candidates@,
            set == all.to_set(),
            all == candidates.elements(),
            collections::strictly_sorted(all),
            unknown@ == Set::<Seq<char>>::empty(),
            best_score == similarity(indexes@, own@, all[best as int]),
            forall|j: int|
                0 <= j < i ==> (similarity(indexes@, own@, #[trigger] all[j])).denominator > 0,
            forall|j: int|
                0 <= j < i ==> !similarity(indexes@, own@, #[trigger] all[j]).exceeds(best_score),
            forall|j: int|
                0 <= j < best ==> best_score.exceeds(similarity(indexes@, own@, #[trigger] all[j])),
        decreases n - i,
    {
        let score = score_candidate(indexes, &own, candidates.at(i), &unknown);
        if score.is_above(&best_score) {
            proof {
                assert forall|j: int| 0 <= j < i implies score.exceeds(
                    similarity(indexes@, own@, #[trigger] all[j]),
                ) by {
                    lemma_exceeds_transitive(
                        score,
                        best_score,
                        similarity(indexes@, own@, all[j]),
                    );
                }
                assert forall|j: int| 0 <= j < i implies !similarity(
                    indexes@,
                    own@,
                    #[trigger] all[j],
                ).exceeds(score) by {
                    let s = similarity(indexes@, own@, all[j]);
                    assert(score.exceeds(s));
                    assert(!s.exceeds(score)) by (nonlinear_arith)
                        requires
                            score.exceeds(s),
                    ;
                }
                assert(!score.exceeds(score)) by (nonlinear_arith);
            }
            best = i;
            best_score = score;
        }
        i += 1;
    }
    let ghost u = all[best as int];
    proof {
        assert(all.contains(u));
        assert(is_most_similar(indexes@, own@, set, u)) by {
            assert forall|v: Seq<char>| #[trigger] set.contains(v) implies {
                &&& !similarity(indexes@, own@, v).exceeds(similarity(indexes@, own@, u))
                &&& text::str_lt(v, u) ==> similarity(indexes@, own@, u).exceeds(
                    similarity(indexes@, own@, v),
                )
            } by {
                let j = all.index_of(v);
                assert(all[j] == v);
                if text::str_lt(v, u) {
                    if j > best {
                        assert(text::str_lt(all[best as int], all[j]));
                        text::lemma_str_lt_transitive(v, u, v);
                        text::lemma_str_lt_irreflexive(v);
                    } else if j == best {
                        text::lemma_str_lt_irreflexive(v);
                    }
                }
            }
        }
        let chosen = choose|w: Seq<char>| is_most_similar(indexes@, own@, set, w);
        lemma_most_similar_unique(indexes@, own@, set, u, chosen);
    }
    if !best_score.is_at_least(FUZZY_JACCARD_THRESHOLD_PERCENT) {
        return None;
    }
    match indexes.nodes_by_uuid.get(candidates.at(best).as_str()) {
        Some(found) => Some(found.clone()),
        None => None,
    }
}

fn score_candidate(
    indexes: &DedupCandidateIndexes,
    own: &StringSet,
    uuid: &String,
    unknown: &StringSet,
) -> (r: Ratio)
    requires
        unknown@ == Set::<Seq<char>>::empty(),
    ensures
        r == similarity(indexes@, own@, uuid@),
        r.denominator > 0,
{
    let theirs: &StringSet = match indexes.shingles_by_candidate.get(uuid.as_str()) {
        Some(s) => s,
        None => unknown,
    };
    jaccard_similarity(own, theirs)
}

/// The known entity that a new one duplicates, as far as names decide.
pub fn find_similar(indexes: &DedupCandidateIndexes, node: &EntityNode) -> (r: Option<EntityNode>)
    ensures
        match r {
            Some(n) => similar_entity(indexes@, node@) == Some(n@),
            None => similar_entity(indexes@, node@) is None,
        },
{
    let normal = normalize_string_exact(node.name.as_str());
    let matches: usize = match indexes.normalized_existing.get(normal.as_str()) {
        Some(list) => {
            assert(types::node_views(list@).len() == list@.len());
            if list.len() == 1 {
                assert(types::node_views(list@)[0] == list@[0]@);
                return Some(promote_resolved_node(node, &list[0]));
            }
            list.len()
        },
        None => 0,
    };
    if matches > 1 {
        return None;
    }
    match find_fuzzy(indexes, node.name.as_str()) {
        Some(found) => Some(promote_resolved_node(node, &found)),
        None => None,
    }
}

/// No label is lost, and none comes up.
pub proof fn lemma_first_seen_keeps(s: Seq<Seq<char>>, x: Seq<char>)
    ensures
        first_seen(s).contains(x) <==> s.contains(x),
    decreases s.len(),
{
    if s.len() > 0 {
        let init = s.drop_last();
        let before = first_seen(init);
        lemma_first_seen_keeps(init, x);
        lemma_first_seen_keeps(init, s.last());
        if s.contains(x) {
            let k = choose|k: int| 0 <= k < s.len() && s[k] == x;
            if k < init.len() {
                assert(init[k] == x);
            }
        }
        if init.contains(x) {
            let k = choose|k: int| 0 <= k < init.len() && init[k] == x;
            assert(s[k] == x);
        }
        assert(s[s.len() - 1] == s.last());
        let after = first_seen(s);
        if before.contains(x) {
            let k = choose|k: int| 0 <= k < before.len() && before[k] == x;
            assert(after[k] == x);
        }
        if !before.contains(s.last()) {
            assert(after[before.len() as int] == s.last());
            if after.contains(x) {
                let k = choose|k: int| 0 <= k < after.len() && after[k] == x;
                if k < before.len() {
                    assert(before[k] == x);
                }
            }
        }
    }
}

proof fn lemma_specific(labels: Seq<Seq<char>>, x: Seq<char>)
    ensures
        specific_labels(labels).contains(x) <==> labels.contains(x) && x != "Entity"@,
    decreases labels.len(),
{
    if labels.len() > 0 {
        let init = labels.drop_last();
        let before = specific_labels(init);
        let after = specific_labels(labels);
        lemma_specific(init, x);
        if labels.contains(x) {
            let k = choose|k: int| 0 <= k < labels.len() && labels[k] == x;
            if k < init.len() {
                assert(init[k] == x);
            } else if x != "Entity"@ {
                assert(after[before.len() as int] == x);
            }
        }
        if init.contains(x) {
            let k = choose|k: int| 0 <= k < init.len() && init[k] == x;
            assert(labels[k] == x);
        }
        if before.contains(x) {
            let k = choose|k: int| 0 <= k < before.len() && before[k] == x;
            assert(after[k] == x);
        }
        if after.contains(x) {
            let k = choose|k: int| 0 <= k < after.len() && after[k] == x;
            if k < before.len() {
                assert(before[k] == x);
            } else {
                assert(labels[labels.len() - 1] == x);
            }
        }
    }
}

/// A known entity that a new one duplicates stays what it is but for its labels: it loses none,
/// every label that it gains is one of the new entity or `Entity`, and with a specific label it
/// gains none.
pub proof fn law_promotion_keeps_identity(
    extracted: EntityNodeView,
    resolved: EntityNodeView,
    label: Seq<char>,
)
    ensures
        promoted(extracted, resolved) == (EntityNodeView {
            labels: promoted(extracted, resolved).labels,
            ..resolved
        }),
        resolved.labels.contains(label) ==> promoted(extracted, resolved).labels.contains(label),
        promoted(extracted, resolved).labels.contains(label) ==> resolved.labels.contains(label)
            || extracted.labels.contains(label) || label == "Entity"@,
        resolved.labels.contains(label) && label != "Entity"@ ==> promoted(extracted, resolved)
            == resolved,
{
    let own = specific_labels(extracted.labels);
    let start = seq!["Entity"@] + resolved.labels;
    let joined = start + own;
    lemma_first_seen_keeps(joined, label);
    lemma_specific(extracted.labels, label);
    lemma_specific(resolved.labels, label);
    if resolved.labels.contains(label) {
        let k = choose|k: int| 0 <= k < resolved.labels.len() && resolved.labels[k] == label;
        assert(joined[k + 1] == label);
        if label != "Entity"@ {
            let specific = specific_labels(resolved.labels);
            let j = choose|j: int| 0 <= j < specific.len() && specific[j] == label;
            assert(specific.len() > 0);
        }
    }
    if joined.contains(label) {
        let k = choose|k: int| 0 <= k < joined.len() && joined[k] == label;
        if k == 0 {
        } else if k < start.len() {
            assert(resolved.labels[k - 1] == label);
        } else {
            assert(own[k - start.len()] == label);
        }
    }
}

/// What is found under a normal form is a known entity with that form.
pub proof fn lemma_named_is_known(nodes: Seq<EntityNodeView>, normal: Seq<char>, i: int)
    requires
        0 <= i < nodes_named(nodes, normal).len(),
    ensures
        nodes.contains(nodes_named(nodes, normal)[i]),
        helpers::normal_form(nodes_named(nodes, normal)[i].name) == normal,
    decreases nodes.len(),
{
    let init = nodes.drop_last();
    let before = nodes_named(init, normal);
    if i < before.len() {
        lemma_named_is_known(init, normal, i);
        let k = choose|k: int| 0 <= k < init.len() && init[k] == before[i];
        assert(nodes[k] == before[i]);
    } else {
        assert(nodes[nodes.len() - 1] == nodes.last());
    }
}

proof fn lemma_last_is_known(nodes: Seq<EntityNodeView>, uuid: Seq<char>)
    ensures
        last_with_uuid(nodes, uuid) matches Some(n) ==> nodes.contains(n) && n.uuid == uuid,
    decreases nodes.len(),
{
    if nodes.len() > 0 {
        let init = nodes.drop_last();
        lemma_last_is_known(init, uuid);
        assert(nodes[nodes.len() - 1] == nodes.last());
        if let Some(n) = last_with_uuid(init, uuid) {
            let k = choose|k: int| 0 <= k < init.len() && init[k] == n;
            assert(nodes[k] == n);
        }
    }
}

/// What a new entity is taken to duplicate is one of the known entities that it was compared with,
/// promoted.
pub proof fn law_duplicate_is_a_known_entity(nodes: Seq<EntityNodeView>, node: EntityNodeView)
    ensures
        similar_entity(candidates_among(nodes), node) matches Some(found) ==> exists|k: int|
            0 <= k < nodes.len() && found == promoted(node, #[trigger] nodes[k]),
{
    let c = candidates_among(nodes);
    let exact = (c.named)(helpers::normal_form(node.name));
    if exact.len() == 1 {
        lemma_named_is_known(nodes, helpers::normal_form(node.name), 0);
        let k = choose|k: int| 0 <= k < nodes.len() && nodes[k] == exact[0];
        assert(promoted(node, nodes[k]) == promoted(node, exact[0]));
    } else if exact.len() == 0 {
        if let Some(found) = fuzzy_match(c, node.name) {
            let fuzzy = dedup_helpers::fuzzy_name(node.name);
            let own = dedup_helpers::shingle_set(fuzzy);
            let own_bands = name_bands(node.name);
            let uuids = sharing_a_band(c, own_bands, own_bands.len());
            let best = choose|u: Seq<char>| is_most_similar(c, own, uuids, u);
            lemma_last_is_known(nodes, best);
            let k = choose|k: int| 0 <= k < nodes.len() && nodes[k] == found;
            assert(promoted(node, nodes[k]) == promoted(node, found));
        }
    }
}

/// The only known entity with the same normal form of its name is the one that a new entity
/// duplicates, and several leave it open.
pub proof fn law_same_name_decides(nodes: Seq<EntityNodeView>, node: EntityNodeView)
    ensures
        nodes_named(nodes, helpers::normal_form(node.name)).len() == 1 ==> similar_entity(
            candidates_among(nodes),
            node,
        ) == Some(promoted(node, nodes_named(nodes, helpers::normal_form(node.name))[0])),
        nodes_named(nodes, helpers::normal_form(node.name)).len() > 1 ==> similar_entity(
            candidates_among(nodes),
            node,
        ) is None,
{
}

} // verus!
