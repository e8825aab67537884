//! What the resolution of facts keeps to, stated on the lists, dates and numbers that go in and
//! come out.
use crate::helpers;
use crate::pipeline::edge_ops::{self, EdgeResolutionView, EdgeStepView};
use crate::pipeline::temporal;
use crate::prompts::models::ExtractedEdge;
use crate::selection;
use crate::text;
use crate::time::{self, Timestamp};
use crate::types::{EntityEdgeView, EntityNodeView, Embedding};
use vstd::prelude::*;

verus! {

/// The first number of an answer that is the position of a fact is the one that counts, as it is;
/// where no number is one, none counts.
pub proof fn law_first_number_in_range_counts(numbers: Seq<i64>, n: nat, k: int)
    ensures
        0 <= k < numbers.len() && 0 <= numbers[k] < n && (forall|j: int|
            0 <= j < k ==> !(0 <= #[trigger] numbers[j] < n)) ==> edge_ops::first_position(numbers, n)
            == Some(numbers[k] as int),
        (forall|j: int| 0 <= j < numbers.len() ==> !(0 <= #[trigger] numbers[j] < n))
            ==> edge_ops::first_position(numbers, n) is None,
    decreases numbers.len(),
{
    if numbers.len() > 0 {
        let init = numbers.drop_last();
        law_first_number_in_range_counts(init, n, k);
        if 0 <= k < numbers.len() && 0 <= numbers[k] < n && forall|j: int|
            0 <= j < k ==> !(0 <= #[trigger] numbers[j] < n) {
            if k < init.len() {
                assert(init[k] == numbers[k]);
                assert forall|j: int| 0 <= j < k implies !(0 <= #[trigger] init[j] < n) by {
                    assert(init[j] == numbers[j]);
                }
            } else {
                assert forall|j: int| 0 <= j < init.len() implies !(0 <= #[trigger] init[j] < n) by {
                    assert(init[j] == numbers[j]);
                }
            }
        }
        if forall|j: int| 0 <= j < numbers.len() ==> !(0 <= #[trigger] numbers[j] < n) {
            assert forall|j: int| 0 <= j < init.len() implies !(0 <= #[trigger] init[j] < n) by {
                assert(init[j] == numbers[j]);
            }
            assert(numbers[numbers.len() - 1] == numbers.last());
        }
    }
}

/// The numbers of an answer that are positions pick the facts at these positions, in the order of
/// the numbers; the others pick nothing.
pub proof fn law_numbers_pick_facts(edges: Seq<EntityEdgeView>, numbers: Seq<i64>) -> (at: Seq<int>)
    ensures
        selection::selects(
            numbers,
            edge_ops::facts_at(edges, numbers),
            at,
            |i: int, x: i64| 0 <= x < edges.len(),
            |x: i64| edges[x as int],
        ),
    decreases numbers.len(),
{
    let keep = |i: int, x: i64| 0 <= x < edges.len();
    let make = |x: i64| edges[x as int];
    if numbers.len() == 0 {
        Seq::empty()
    } else {
        let init = numbers.drop_last();
        let before = law_numbers_pick_facts(edges, init);
        selection::lemma_selects_next(
            numbers,
            edge_ops::facts_at(edges, init),
            before,
            keep,
            keep,
            make,
        );
        if keep(numbers.len() - 1, numbers.last()) {
            before.push(numbers.len() - 1)
        } else {
            before
        }
    }
}

/// The fact that the model was shown under a number: the related facts are numbered from zero, the
/// others after them.
pub open spec fn fact_under(
    related: Seq<EntityEdgeView>,
    existing: Seq<EntityEdgeView>,
    number: int,
) -> EntityEdgeView {
    if number < related.len() {
        related[number]
    } else {
        existing[number - related.len()]
    }
}

/// A known fact that a fact overtook, closed.
pub open spec fn closed_at(a: EntityEdgeView, t: Option<Timestamp>, now: Timestamp) -> EntityEdgeView {
    EntityEdgeView {
        invalid_at: t,
        expired_at: if a.expired_at is Some {
            a.expired_at
        } else {
            Some(now)
        },
        ..a
    }
}

/// Holds where a resolution closes exactly the facts under the given numbers that the resolved fact
/// overtook.
pub open spec fn closes_the_named(
    r: EdgeResolutionView,
    related: Seq<EntityEdgeView>,
    existing: Seq<EntityEdgeView>,
    numbers: Seq<i64>,
    now: Timestamp,
) -> bool {
    &&& forall|m: int|
        0 <= m < numbers.len() && 0 <= #[trigger] numbers[m] < related.len() + existing.len() && {
            let a = fact_under(related, existing, numbers[m] as int);
            temporal::overtaken(
                a.valid_at,
                a.invalid_at,
                r.resolved.valid_at,
                r.resolved.invalid_at,
            )
        } ==> r.invalidated.contains(
            closed_at(fact_under(related, existing, numbers[m] as int), r.resolved.valid_at, now),
        )
    &&& forall|k: int|
        0 <= k < r.invalidated.len() ==> exists|m: int|
            {
                &&& 0 <= m < numbers.len()
                &&& 0 <= #[trigger] numbers[m] < related.len() + existing.len()
                &&& (#[trigger] r.invalidated[k]) == closed_at(
                    fact_under(related, existing, numbers[m] as int),
                    r.resolved.valid_at,
                    now,
                )
            }
}

proof fn lemma_settled_closes(
    edge: EntityEdgeView,
    related: Seq<EntityEdgeView>,
    existing: Seq<EntityEdgeView>,
    numbers: Seq<i64>,
    now: Timestamp,
)
    ensures
        closes_the_named(
            edge_ops::settled(edge, edge_ops::facts_at(related + existing, numbers), now),
            related,
            existing,
            numbers,
            now,
        ),
{
    let all = related + existing;
    let candidates = edge_ops::facts_at(all, numbers);
    let r = edge_ops::settled(edge, candidates, now);
    let picked = law_numbers_pick_facts(all, numbers);
    let at = temporal::law_overtaken_facts_are_closed(r.resolved, candidates, now);
    assert forall|m: int|
        0 <= m < numbers.len() && 0 <= #[trigger] numbers[m] < related.len() + existing.len() && {
            let a = fact_under(related, existing, numbers[m] as int);
            temporal::overtaken(
                a.valid_at,
                a.invalid_at,
                r.resolved.valid_at,
                r.resolved.invalid_at,
            )
        } implies r.invalidated.contains(
        closed_at(fact_under(related, existing, numbers[m] as int), r.resolved.valid_at, now),
    ) by {
        let a = fact_under(related, existing, numbers[m] as int);
        assert(all[numbers[m] as int] == a);
        let c = choose|c: int| 0 <= c < picked.len() && picked[c] == m;
        assert(candidates[c] == a);
        let k = choose|k: int| 0 <= k < at.len() && at[k] == c;
        assert(r.invalidated[k] == closed_at(a, r.resolved.valid_at, now));
    }
    assert forall|k: int| 0 <= k < r.invalidated.len() implies exists|m: int|
        {
            &&& 0 <= m < numbers.len()
            &&& 0 <= #[trigger] numbers[m] < related.len() + existing.len()
            &&& (#[trigger] r.invalidated[k]) == closed_at(
                fact_under(related, existing, numbers[m] as int),
                r.resolved.valid_at,
                now,
            )
        } by {
        let c = at[k];
        assert(r.invalidated[k] == closed_at(candidates[c], r.resolved.valid_at, now));
        let m = picked[c];
        assert(candidates[c] == all[numbers[m] as int]);
        assert(all[numbers[m] as int] == fact_under(related, existing, numbers[m] as int));
    }
}

/// The model's answer decides what a new fact is. The first number under which a related fact was
/// shown makes the new fact that related fact, mentioned by the episode too. Without such a number
/// the new fact stays itself, and its dates are asked for where it has none. Of the facts that the
/// answer says are contradicted, those are closed that the fact overtook, and no others; they wait
/// for the dates where these are asked for.
pub proof fn law_answer_decides_on_a_fact(
    extracted: EntityEdgeView,
    related: Seq<EntityEdgeView>,
    existing: Seq<EntityEdgeView>,
    duplicates: Seq<i64>,
    contradicted: Seq<i64>,
    episode_uuid: Seq<char>,
    now: Timestamp,
    k: int,
)
    ensures
        0 <= k < duplicates.len() && 0 <= duplicates[k] < related.len() && (forall|j: int|
            0 <= j < k ==> !(0 <= #[trigger] duplicates[j] < related.len()))
            && related[duplicates[k] as int].uuid != extracted.uuid ==> {
            let known = related[duplicates[k] as int];
            edge_ops::second_step(
                extracted,
                related,
                existing,
                duplicates,
                contradicted,
                episode_uuid,
                now,
            ) matches EdgeStepView::Done(r) && {
                &&& r.resolved == EntityEdgeView {
                    episodes: r.resolved.episodes,
                    invalid_at: r.resolved.invalid_at,
                    expired_at: r.resolved.expired_at,
                    ..known
                }
                &&& r.resolved.episodes == if known.episodes.contains(episode_uuid) {
                    known.episodes
                } else {
                    known.episodes.push(episode_uuid)
                }
                &&& closes_the_named(r, related, existing, contradicted, now)
            }
        },
        (forall|j: int|
            0 <= j < duplicates.len() ==> !(0 <= #[trigger] duplicates[j] < related.len())) ==> {
            match edge_ops::second_step(
                extracted,
                related,
                existing,
                duplicates,
                contradicted,
                episode_uuid,
                now,
            ) {
                EdgeStepView::Done(r) => {
                    &&& extracted.valid_at is Some || extracted.invalid_at is Some
                    &&& r.resolved == EntityEdgeView {
                        invalid_at: r.resolved.invalid_at,
                        expired_at: r.resolved.expired_at,
                        ..extracted
                    }
                    &&& closes_the_named(r, related, existing, contradicted, now)
                },
                EdgeStepView::AskTimestamps { edge, candidates } => {
                    &&& extracted.valid_at is None && extracted.invalid_at is None
                    &&& edge == extracted
                    &&& forall|m: int|
                        0 <= m < contradicted.len() && 0 <= #[trigger] contradicted[m]
                            < related.len() + existing.len() ==> candidates.contains(
                            fact_under(related, existing, contradicted[m] as int),
                        )
                    &&& forall|c: int|
                        0 <= c < candidates.len() ==> exists|m: int|
                            {
                                &&& 0 <= m < contradicted.len()
                                &&& 0 <= #[trigger] contradicted[m] < related.len() + existing.len()
                                &&& (#[trigger] candidates[c]) == fact_under(
                                    related,
                                    existing,
                                    contradicted[m] as int,
                                )
                            }
                },
                EdgeStepView::AskDuplicates { .. } => false,
            }
        },
{
    law_first_number_in_range_counts(duplicates, related.len(), k);
    let all = related + existing;
    let candidates = edge_ops::facts_at(all, contradicted);
    match edge_ops::first_position(duplicates, related.len()) {
        Some(d) => {
            lemma_settled_closes(
                edge_ops::with_episode(related[d], episode_uuid),
                related,
                existing,
                contradicted,
                now,
            );
        },
        None => {
            lemma_settled_closes(extracted, related, existing, contradicted, now);
            let picked = law_numbers_pick_facts(all, contradicted);
            assert forall|m: int|
                0 <= m < contradicted.len() && 0 <= #[trigger] contradicted[m] < related.len()
                    + existing.len() implies candidates.contains(
                fact_under(related, existing, contradicted[m] as int),
            ) by {
                assert(all[contradicted[m] as int] == fact_under(
                    related,
                    existing,
                    contradicted[m] as int,
                ));
                let c = choose|c: int| 0 <= c < picked.len() && picked[c] == m;
                assert(candidates[c] == all[contradicted[m] as int]);
            }
            assert forall|c: int| 0 <= c < candidates.len() implies exists|m: int|
                {
                    &&& 0 <= m < contradicted.len()
                    &&& 0 <= #[trigger] contradicted[m] < related.len() + existing.len()
                    &&& (#[trigger] candidates[c]) == fact_under(
                        related,
                        existing,
                        contradicted[m] as int,
                    )
                } by {
                let m = picked[c];
                assert(candidates[c] == all[contradicted[m] as int]);
                assert(all[contradicted[m] as int] == fact_under(
                    related,
                    existing,
                    contradicted[m] as int,
                ));
            }
        },
    }
}

/// A fact that says the same of the same entities as a known one, white space and case aside, is
/// the first such known one, mentioned by the episode too, and closes nothing.
pub proof fn law_fact_said_before_is_the_known_one(
    extracted: EntityEdgeView,
    related: Seq<EntityEdgeView>,
    existing: Seq<EntityEdgeView>,
    episode_uuid: Seq<char>,
    now: Timestamp,
    i: int,
)
    requires
        0 <= i < related.len(),
        related[i].source_node_uuid == extracted.source_node_uuid,
        related[i].target_node_uuid == extracted.target_node_uuid,
        helpers::normal_form(related[i].fact) == helpers::normal_form(extracted.fact),
        forall|j: int|
            0 <= j < i ==> (#[trigger] related[j]).source_node_uuid != extracted.source_node_uuid
                || related[j].target_node_uuid != extracted.target_node_uuid
                || helpers::normal_form(related[j].fact) != helpers::normal_form(extracted.fact),
    ensures
        edge_ops::first_step(extracted, related, existing, episode_uuid, now)
            matches EdgeStepView::Done(r) && {
            &&& r.resolved == EntityEdgeView { episodes: r.resolved.episodes, ..related[i] }
            &&& r.resolved.episodes == if related[i].episodes.contains(episode_uuid) {
                related[i].episodes
            } else {
                related[i].episodes.push(episode_uuid)
            }
            &&& r.invalidated.len() == 0
        },
{
    lemma_first_same(related, extracted, i);
}

proof fn lemma_first_same(related: Seq<EntityEdgeView>, e: EntityEdgeView, i: int)
    requires
        0 <= i < related.len(),
        related[i].source_node_uuid == e.source_node_uuid,
        related[i].target_node_uuid == e.target_node_uuid,
        helpers::normal_form(related[i].fact) == helpers::normal_form(e.fact),
        forall|j: int|
            0 <= j < i ==> (#[trigger] related[j]).source_node_uuid != e.source_node_uuid
                || related[j].target_node_uuid != e.target_node_uuid || helpers::normal_form(
                related[j].fact,
            ) != helpers::normal_form(e.fact),
    ensures
        edge_ops::first_same(related, e) == Some(related[i]),
    decreases related.len(),
{
    let init = related.drop_last();
    if i < init.len() {
        assert(init[i] == related[i]);
        assert forall|j: int| 0 <= j < i implies (#[trigger] init[j]).source_node_uuid
            != e.source_node_uuid || init[j].target_node_uuid != e.target_node_uuid
            || helpers::normal_form(init[j].fact) != helpers::normal_form(e.fact) by {
            assert(init[j] == related[j]);
        }
        lemma_first_same(init, e, i);
    } else {
        assert forall|j: int| 0 <= j < init.len() implies (#[trigger] init[j]).source_node_uuid
            != e.source_node_uuid || init[j].target_node_uuid != e.target_node_uuid
            || helpers::normal_form(init[j].fact) != helpers::normal_form(e.fact) by {
            assert(init[j] == related[j]);
        }
        lemma_none_same(init, e);
    }
}

proof fn lemma_none_same(related: Seq<EntityEdgeView>, e: EntityEdgeView)
    requires
        forall|j: int|
            0 <= j < related.len() ==> (#[trigger] related[j]).source_node_uuid
                != e.source_node_uuid || related[j].target_node_uuid != e.target_node_uuid
                || helpers::normal_form(related[j].fact) != helpers::normal_form(e.fact),
    ensures
        edge_ops::first_same(related, e) is None,
    decreases related.len(),
{
    if related.len() > 0 {
        let init = related.drop_last();
        assert(related[related.len() - 1] == related.last());
        assert forall|j: int| 0 <= j < init.len() implies (#[trigger] init[j]).source_node_uuid
            != e.source_node_uuid || init[j].target_node_uuid != e.target_node_uuid
            || helpers::normal_form(init[j].fact) != helpers::normal_form(e.fact) by {
            assert(init[j] == related[j]);
        }
        lemma_none_same(init, e);
    }
}

/// A fact that says something new of its entities goes to the model with all the facts that it is
/// compared with, as they are. Where there are none, nothing is asked about duplicates: the fact
/// stays itself, expired where it has an end, and its dates are asked for where it has none.
pub proof fn law_new_fact_is_compared_or_dated(
    extracted: EntityEdgeView,
    related: Seq<EntityEdgeView>,
    existing: Seq<EntityEdgeView>,
    episode_uuid: Seq<char>,
    now: Timestamp,
)
    requires
        forall|j: int|
            0 <= j < related.len() ==> (#[trigger] related[j]).source_node_uuid
                != extracted.source_node_uuid || related[j].target_node_uuid
                != extracted.target_node_uuid || helpers::normal_form(related[j].fact)
                != helpers::normal_form(extracted.fact),
    ensures
        related.len() + existing.len() > 0 ==> edge_ops::first_step(
            extracted,
            related,
            existing,
            episode_uuid,
            now,
        ) == (EdgeStepView::AskDuplicates { extracted, related, existing }),
        related.len() + existing.len() == 0 ==> match edge_ops::first_step(
            extracted,
            related,
            existing,
            episode_uuid,
            now,
        ) {
            EdgeStepView::Done(r) => {
                &&& extracted.valid_at is Some || extracted.invalid_at is Some
                &&& r.invalidated.len() == 0
                &&& r.resolved == EntityEdgeView {
                    expired_at: if extracted.expired_at is None && extracted.invalid_at is Some {
                        Some(now)
                    } else {
                        extracted.expired_at
                    },
                    ..extracted
                }
            },
            EdgeStepView::AskTimestamps { edge, candidates } => {
                &&& extracted.valid_at is None && extracted.invalid_at is None
                &&& edge == extracted
                &&& candidates.len() == 0
            },
            EdgeStepView::AskDuplicates { .. } => false,
        },
{
    lemma_none_same(related, extracted);
}

/// The dates of an answer are taken where it gives them and can be read; a date that it gives and
/// that cannot be read is none, and one that it does not give stays. Nothing else changes.
pub proof fn law_answer_dates_a_fact(
    edge: EntityEdgeView,
    valid_at: Option<Seq<char>>,
    invalid_at: Option<Seq<char>>,
)
    ensures
        ({
            let d = edge_ops::dated(edge, Some((valid_at, invalid_at)));
            &&& d == EntityEdgeView { valid_at: d.valid_at, invalid_at: d.invalid_at, ..edge }
            &&& valid_at is None ==> d.valid_at == edge.valid_at
            &&& valid_at is Some ==> d.valid_at == time::instant_of(
                text::replaced(valid_at->0, 'Z', "+00:00"@),
            )
            &&& invalid_at is None ==> d.invalid_at == edge.invalid_at
            &&& invalid_at is Some ==> d.invalid_at == time::instant_of(
                text::replaced(invalid_at->0, 'Z', "+00:00"@),
            )
        }),
        edge_ops::dated(edge, None) == edge,
{
}

/// The facts that are left of a list are those of which none before says the same of the same
/// entities, white space and case aside, as they are and in order.
pub proof fn law_repeated_facts_go(edges: Seq<EntityEdgeView>) -> (at: Seq<int>)
    ensures
        selection::selects(
            edges,
            edge_ops::distinct_facts(edges),
            at,
            |i: int, e: EntityEdgeView|
                forall|j: int|
                    0 <= j < i ==> (#[trigger] edges[j]).source_node_uuid != e.source_node_uuid
                        || edges[j].target_node_uuid != e.target_node_uuid || helpers::normal_form(
                        edges[j].fact,
                    ) != helpers::normal_form(e.fact),
            |e: EntityEdgeView| e,
        ),
    decreases edges.len(),
{
    let keep = |i: int, e: EntityEdgeView|
        forall|j: int|
            0 <= j < i ==> (#[trigger] edges[j]).source_node_uuid != e.source_node_uuid
                || edges[j].target_node_uuid != e.target_node_uuid || helpers::normal_form(
                edges[j].fact,
            ) != helpers::normal_form(e.fact);
    let make = |e: EntityEdgeView| e;
    if edges.len() == 0 {
        Seq::empty()
    } else {
        let init = edges.drop_last();
        let had = |i: int, e: EntityEdgeView|
            forall|j: int|
                0 <= j < i ==> (#[trigger] init[j]).source_node_uuid != e.source_node_uuid
                    || init[j].target_node_uuid != e.target_node_uuid || helpers::normal_form(
                    init[j].fact,
                ) != helpers::normal_form(e.fact);
        let before = law_repeated_facts_go(init);
        assert forall|i: int| 0 <= i < edges.len() - 1 implies had(i, #[trigger] edges[i])
            == keep(i, edges[i]) by {
            assert forall|j: int| 0 <= j < i implies #[trigger] init[j] == edges[j] by {}
            if had(i, edges[i]) {
                assert forall|j: int| 0 <= j < i implies (#[trigger] edges[j]).source_node_uuid
                    != edges[i].source_node_uuid || edges[j].target_node_uuid
                    != edges[i].target_node_uuid || helpers::normal_form(edges[j].fact)
                    != helpers::normal_form(edges[i].fact) by {
                    assert(init[j] == edges[j]);
                }
            }
        }
        selection::lemma_selects_next(
            edges,
            edge_ops::distinct_facts(init),
            before,
            had,
            keep,
            make,
        );
        let n = edges.len() - 1;
        assert(edge_ops::said_before(edges, n, edges.last()) == !keep(n, edges.last())) by {
            if edge_ops::said_before(edges, n, edges.last()) {
                let j = choose|j: int|
                    0 <= j < n && edge_ops::same_fact(#[trigger] edges[j], edges.last());
                assert(0 <= j < n);
            }
            if !keep(n, edges.last()) {
                let j = choose|j: int|
                    0 <= j < n && !((#[trigger] edges[j]).source_node_uuid
                        != edges.last().source_node_uuid || edges[j].target_node_uuid
                        != edges.last().target_node_uuid || helpers::normal_form(edges[j].fact)
                        != helpers::normal_form(edges.last().fact));
                assert(edge_ops::same_fact(edges[j], edges.last()));
            }
        }
        if keep(n, edges.last()) {
            before.push(n)
        } else {
            before
        }
    }
}

/// Of the facts between the entities of a new one the first ten are compared with it, as they are;
/// of what a search found, those whose identifiers are not among theirs, in order.
pub proof fn law_candidates_are_parted(between: Seq<EntityEdgeView>, hits: Seq<EntityEdgeView>) -> (at:
    Seq<int>)
    ensures
        ({
            let related = edge_ops::first_related(between);
            &&& related.len() == if between.len() < 10 {
                between.len()
            } else {
                10
            }
            &&& forall|i: int| 0 <= i < related.len() ==> #[trigger] related[i] == between[i]
            &&& selection::selects(
                hits,
                edge_ops::outside(hits, edge_ops::edge_uuids(related)),
                at,
                |i: int, e: EntityEdgeView|
                    forall|j: int|
                        0 <= j < between.len() && j < 10 ==> (#[trigger] between[j]).uuid != e.uuid,
                |e: EntityEdgeView| e,
            )
        }),
    decreases hits.len(),
{
    let related = edge_ops::first_related(between);
    let known = edge_ops::edge_uuids(related);
    let uuids = related.map_values(|e: EntityEdgeView| e.uuid);
    let keep = |i: int, e: EntityEdgeView|
        forall|j: int| 0 <= j < between.len() && j < 10 ==> (#[trigger] between[j]).uuid != e.uuid;
    let make = |e: EntityEdgeView| e;
    if hits.len() == 0 {
        Seq::empty()
    } else {
        let init = hits.drop_last();
        let before = law_candidates_are_parted(between, init);
        selection::lemma_selects_next(
            hits,
            edge_ops::outside(init, known),
            before,
            keep,
            keep,
            make,
        );
        let n = hits.len() - 1;
        assert(known.contains(hits.last().uuid) == !keep(n, hits.last())) by {
            if known.contains(hits.last().uuid) {
                let j = choose|j: int| 0 <= j < uuids.len() && uuids[j] == hits.last().uuid;
                assert(between[j].uuid == hits.last().uuid);
            }
            if !keep(n, hits.last()) {
                let j = choose|j: int|
                    0 <= j < between.len() && j < 10 && (#[trigger] between[j]).uuid
                        == hits.last().uuid;
                assert(uuids[j] == hits.last().uuid);
            }
        }
        if keep(n, hits.last()) {
            before.push(n)
        } else {
            before
        }
    }
}

/// Every fact gets the embedding that came back at its position, and keeps everything else; a fact
/// for which none came back stays as it is.
pub proof fn law_facts_get_their_embeddings(
    edges: Seq<EntityEdgeView>,
    embeddings: Seq<Embedding>,
    i: int,
)
    requires
        0 <= i < edges.len(),
    ensures
        edge_ops::with_embeddings(edges, embeddings).len() == edges.len(),
        i < embeddings.len() ==> edge_ops::with_embeddings(edges, embeddings)[i] == (
        EntityEdgeView { fact_embedding: Some(embeddings[i]@), ..edges[i] }),
        i >= embeddings.len() ==> edge_ops::with_embeddings(edges, embeddings)[i] == edges[i],
{
}

/// What resolutions closed comes out together: every fact that one of them closed, and no other.
pub proof fn law_closed_facts_are_collected(resolutions: Seq<EdgeResolutionView>, e: EntityEdgeView)
    ensures
        edge_ops::all_invalidated(resolutions).contains(e) <==> exists|i: int|
            0 <= i < resolutions.len() && (#[trigger] resolutions[i]).invalidated.contains(e),
    decreases resolutions.len(),
{
    if resolutions.len() > 0 {
        let init = resolutions.drop_last();
        let last = resolutions.last().invalidated;
        let before = edge_ops::all_invalidated(init);
        let all = edge_ops::all_invalidated(resolutions);
        law_closed_facts_are_collected(init, e);
        assert(resolutions[resolutions.len() - 1] == resolutions.last());
        if all.contains(e) {
            let k = choose|k: int| 0 <= k < all.len() && all[k] == e;
            if k < before.len() {
                assert(before[k] == e);
                let i = choose|i: int|
                    0 <= i < init.len() && (#[trigger] init[i]).invalidated.contains(e);
                assert(resolutions[i] == init[i]);
            } else {
                assert(last[k - before.len()] == e);
            }
        }
        if before.contains(e) {
            let k = choose|k: int| 0 <= k < before.len() && before[k] == e;
            assert(all[k] == e);
        }
        if last.contains(e) {
            let k = choose|k: int| 0 <= k < last.len() && last[k] == e;
            assert(all[before.len() + k] == e);
        }
        if exists|i: int|
            0 <= i < resolutions.len() && (#[trigger] resolutions[i]).invalidated.contains(e) {
            let i = choose|i: int|
                0 <= i < resolutions.len() && (#[trigger] resolutions[i]).invalidated.contains(e);
            if i < init.len() {
                assert(init[i] == resolutions[i]);
            }
        }
    }
}

/// The position of the last entity with a name.
pub open spec fn is_last_named(nodes: Seq<EntityNodeView>, name: Seq<char>, i: int) -> bool {
    &&& 0 <= i < nodes.len()
    &&& nodes[i].name == name
    &&& forall|j: int| i < j < nodes.len() ==> (#[trigger] nodes[j]).name != name
}

/// An entity is found by its name: the last one that has it; none where none has it.
pub proof fn law_entity_is_found_by_name(nodes: Seq<EntityNodeView>, name: Seq<char>, i: int)
    ensures
        is_last_named(nodes, name, i) ==> edge_ops::last_named(nodes, name) == Some(nodes[i]),
        (forall|j: int| 0 <= j < nodes.len() ==> (#[trigger] nodes[j]).name != name)
            ==> edge_ops::last_named(nodes, name) is None,
        edge_ops::last_named(nodes, name) is Some ==> exists|j: int|
            #[trigger] is_last_named(nodes, name, j),
    decreases nodes.len(),
{
    if nodes.len() > 0 {
        let init = nodes.drop_last();
        law_entity_is_found_by_name(init, name, i);
        assert(nodes[nodes.len() - 1] == nodes.last());
        if is_last_named(nodes, name, i) && i < init.len() {
            assert(nodes.last().name != name);
            assert forall|j: int| i < j < init.len() implies (#[trigger] init[j]).name != name by {
                assert(init[j] == nodes[j]);
            }
        }
        if forall|j: int| 0 <= j < nodes.len() ==> (#[trigger] nodes[j]).name != name {
            assert forall|j: int| 0 <= j < init.len() implies (#[trigger] init[j]).name != name by {
                assert(init[j] == nodes[j]);
            }
        }
        if edge_ops::last_named(nodes, name) is Some {
            if nodes.last().name == name {
                assert(is_last_named(nodes, name, nodes.len() - 1));
            } else {
                let j = choose|j: int| #[trigger] is_last_named(init, name, j);
                assert forall|m: int| j < m < nodes.len() implies (#[trigger] nodes[m]).name
                    != name by {
                    if m < init.len() {
                        assert(init[m] == nodes[m]);
                    }
                }
                assert(is_last_named(nodes, name, j));
            }
        }
    }
}

/// A fact of an answer is kept where both its entities are known and differ and it is not blank.
/// The fact that is recorded leads from the entity that the answer calls its source to the one that
/// it calls its target, says what the answer says, and comes from the episode alone.
pub proof fn law_extracted_fact_leads_between_its_entities(
    edge: EntityEdgeView,
    e: ExtractedEdge,
    nodes: Seq<EntityNodeView>,
    group_id: Seq<char>,
    episode_uuid: Seq<char>,
    s: int,
    t: int,
)
    requires
        is_last_named(nodes, e.source_entity_name@, s),
        is_last_named(nodes, e.target_entity_name@, t),
    ensures
        edge_ops::is_kept(e, nodes) <==> nodes[s].uuid != nodes[t].uuid && text::trim(e.fact@).len()
            > 0,
        edge_ops::is_edge_of(edge, e, nodes, group_id, episode_uuid) ==> {
            &&& edge.source_node_uuid == nodes[s].uuid
            &&& edge.target_node_uuid == nodes[t].uuid
            &&& edge.fact == e.fact@
            &&& edge.name == e.relation_type@
            &&& edge.group_id == group_id
            &&& edge.episodes == seq![episode_uuid]
            &&& edge.expired_at is None
            &&& e.valid_at is None ==> edge.valid_at is None
            &&& e.valid_at is Some ==> edge.valid_at == time::instant_of(
                text::replaced(e.valid_at->0@, 'Z', "+00:00"@),
            )
            &&& e.invalid_at is None ==> edge.invalid_at is None
            &&& e.invalid_at is Some ==> edge.invalid_at == time::instant_of(
                text::replaced(e.invalid_at->0@, 'Z', "+00:00"@),
            )
            &&& edge.attributes.dom() =~= Set::empty()
            &&& edge.fact_embedding is None
        },
{
    law_entity_is_found_by_name(nodes, e.source_entity_name@, s);
    law_entity_is_found_by_name(nodes, e.target_entity_name@, t);
}

/// The facts of an answer that are kept are those between two known entities that differ, as far as
/// they are not blank, in order.
pub proof fn law_facts_between_known_entities_are_kept(
    edges: Seq<ExtractedEdge>,
    nodes: Seq<EntityNodeView>,
) -> (at: Seq<int>)
    ensures
        selection::selects(
            edges,
            edge_ops::kept_edges(edges, nodes),
            at,
            |i: int, e: ExtractedEdge|
                text::trim(e.fact@).len() > 0 && exists|s: int, t: int|
                    #[trigger] is_last_named(nodes, e.source_entity_name@, s)
                        && #[trigger] is_last_named(nodes, e.target_entity_name@, t)
                        && nodes[s].uuid != nodes[t].uuid,
            |e: ExtractedEdge| e,
        ),
    decreases edges.len(),
{
    let keep = |i: int, e: ExtractedEdge|
        text::trim(e.fact@).len() > 0 && exists|s: int, t: int|
            #[trigger] is_last_named(nodes, e.source_entity_name@, s)
                && #[trigger] is_last_named(nodes, e.target_entity_name@, t) && nodes[s].uuid
                != nodes[t].uuid;
    let make = |e: ExtractedEdge| e;
    if edges.len() == 0 {
        Seq::empty()
    } else {
        let init = edges.drop_last();
        let last = edges.last();
        let before = law_facts_between_known_entities_are_kept(init, nodes);
        selection::lemma_selects_next(
            edges,
            edge_ops::kept_edges(init, nodes),
            before,
            keep,
            keep,
            make,
        );
        let n = edges.len() - 1;
        assert(edge_ops::is_kept(last, nodes) == keep(n, last)) by {
            law_entity_is_found_by_name(nodes, last.source_entity_name@, 0);
            law_entity_is_found_by_name(nodes, last.target_entity_name@, 0);
            if edge_ops::is_kept(last, nodes) {
                let s = choose|s: int| #[trigger]
                    is_last_named(nodes, last.source_entity_name@, s);
                let t = choose|t: int| #[trigger]
                    is_last_named(nodes, last.target_entity_name@, t);
                law_entity_is_found_by_name(nodes, last.source_entity_name@, s);
                law_entity_is_found_by_name(nodes, last.target_entity_name@, t);
                assert(is_last_named(nodes, last.source_entity_name@, s) && is_last_named(
                    nodes,
                    last.target_entity_name@,
                    t,
                ) && nodes[s].uuid != nodes[t].uuid);
            }
            if keep(n, last) {
                let (s, t) = choose|s: int, t: int|
                    #[trigger] is_last_named(nodes, last.source_entity_name@, s)
                        && #[trigger] is_last_named(nodes, last.target_entity_name@, t)
                        && nodes[s].uuid != nodes[t].uuid;
                law_entity_is_found_by_name(nodes, last.source_entity_name@, s);
                law_entity_is_found_by_name(nodes, last.target_entity_name@, t);
            }
        }
        if keep(n, last) {
            before.push(n)
        } else {
            before
        }
    }
}

/// The model is shown the fact at a position under the number of that position, counted from the
/// offset.
pub proof fn law_facts_are_shown_under_their_numbers(
    edges: Seq<EntityEdgeView>,
    offset: nat,
    i: int,
) -> (parts: (Seq<char>, Seq<char>))
    requires
        0 <= i < edges.len(),
    ensures
        edge_ops::numbered_facts(edges, offset as int) == parts.0 + ("{'idx': "@ + text::decimal(
            (offset + i) as nat,
        ) + ", 'fact': "@ + edge_ops::python_literal(edges[i].fact) + "}"@) + parts.1,
        i == 0 ==> parts.0 == "["@,
        i > 0 ==> parts.0 == "["@ + text::join(
            Seq::new(
                i as nat,
                |j: int|
                    "{'idx': "@ + text::decimal((offset + j) as nat) + ", 'fact': "@
                        + edge_ops::python_literal(edges[j].fact) + "}"@,
            ),
            ", "@,
        ) + ", "@,
{
    let items = edges.map(|j: int, e: EntityEdgeView| edge_ops::numbered_fact(offset + j, e.fact));
    let (a, b) = text::lemma_join_around(items, ", "@, i);
    let first = Seq::new(
        i as nat,
        |j: int|
            "{'idx': "@ + text::decimal((offset + j) as nat) + ", 'fact': "@
                + edge_ops::python_literal(edges[j].fact) + "}"@,
    );
    assert(items.take(i) =~= first);
    let parts = ("["@ + a, b + "]"@);
    assert(edge_ops::numbered_facts(edges, offset as int) =~= parts.0 + items[i] + parts.1);
    assert("["@ + Seq::<char>::empty() =~= "["@);
    assert("["@ + (text::join(first, ", "@) + ", "@) =~= "["@ + text::join(first, ", "@) + ", "@);
    parts
}

} // verus!
