//! When facts stop being true: a newer fact closes the interval of an older one that it
//! contradicts, and a fact that is older than what is known arrives already expired.
use crate::selection;
use crate::time::Timestamp;
use crate::types::{self, EntityEdge, EntityEdgeView};
use vstd::prelude::*;

verus! {

/// Holds where both instants are known and the first does not come after the second.
pub open spec fn known_at_or_before(a: Option<Timestamp>, b: Option<Timestamp>) -> bool {
    a matches Some(x) && b matches Some(y) && x.at_or_before(y)
}

/// Holds where both instants are known and the first comes before the second.
pub open spec fn known_before(a: Option<Timestamp>, b: Option<Timestamp>) -> bool {
    a matches Some(x) && b matches Some(y) && x.before(y)
}

/// Holds where one of the facts ended before the other began, as far as their dates say.
pub open spec fn apart(existing: EntityEdgeView, resolved: EntityEdgeView) -> bool {
    known_at_or_before(existing.invalid_at, resolved.valid_at) || known_at_or_before(
        resolved.invalid_at,
        existing.valid_at,
    )
}

/// Holds where a fact that contradicts a known one puts an end to it: they are not apart, and
/// the known one began earlier.
pub open spec fn invalidates(resolved: EntityEdgeView, existing: EntityEdgeView) -> bool {
    !apart(existing, resolved) && known_before(existing.valid_at, resolved.valid_at)
}

/// A known fact once another has put an end to it: it was true until the other began, and is
/// expired since then or, where it was expired before, since before.
pub open spec fn invalidated(
    existing: EntityEdgeView,
    resolved: EntityEdgeView,
    now: Timestamp,
) -> EntityEdgeView {
    EntityEdgeView {
        invalid_at: resolved.valid_at,
        expired_at: match existing.expired_at {
            Some(t) => Some(t),
            None => Some(now),
        },
        ..existing
    }
}

/// The known facts that a fact puts an end to, as they are afterwards, in order.
pub open spec fn invalidated_facts(
    resolved: EntityEdgeView,
    candidates: Seq<EntityEdgeView>,
    now: Timestamp,
) -> Seq<EntityEdgeView>
    decreases candidates.len(),
{
    if candidates.len() == 0 {
        Seq::empty()
    } else {
        let before = invalidated_facts(resolved, candidates.drop_last(), now);
        if invalidates(resolved, candidates.last()) {
            before.push(invalidated(candidates.last(), resolved, now))
        } else {
            before
        }
    }
}

/// Tells whether both instants are known and the first does not come after the second.
fn is_known_at_or_before(a: Option<Timestamp>, b: Option<Timestamp>) -> (r: bool)
    ensures
        r == known_at_or_before(a, b),
{
    match (a, b) {
        (Some(x), Some(y)) => x.is_at_or_before(&y),
        _ => false,
    }
}

/// Tells whether both instants are known and the first comes before the second.
fn is_known_before(a: Option<Timestamp>, b: Option<Timestamp>) -> (r: bool)
    ensures
        r == known_before(a, b),
{
    match (a, b) {
        (Some(x), Some(y)) => x.is_before(&y),
        _ => false,
    }
}

/// Closes the intervals of the known facts that a fact puts an end to. Returns those, and
/// only those, in order.
pub fn resolve_edge_contradictions(
    resolved_edge: &EntityEdge,
    invalidation_candidates: Vec<EntityEdge>,
    now: Timestamp,
) -> (r: Vec<EntityEdge>)
    ensures
        types::edge_views(r@) == invalidated_facts(
            resolved_edge@,
            types::edge_views(invalidation_candidates@),
            now,
        ),
{
    let mut out: Vec<EntityEdge> = Vec::new();
    let ghost all = types::edge_views(invalidation_candidates@);
    let mut i: usize = 0;
    assert(types::edge_views(out@) =~= invalidated_facts(resolved_edge@, all.take(0), now));
    while i < invalidation_candidates.len()
        invariant
            i <= invalidation_candidates@.len(),
            all == types::edge_views(invalidation_candidates@),
            types::edge_views(out@) == invalidated_facts(resolved_edge@, all.take(i as int), now),
        decreases invalidation_candidates.len() - i,
    {
        proof {
            assert(all.take(i as int + 1).drop_last() =~= all.take(i as int));
            assert(all.take(i as int + 1).last() == invalidation_candidates@[i as int]@);
        }
        let edge = &invalidation_candidates[i];
        let is_apart = is_known_at_or_before(edge.invalid_at, resolved_edge.valid_at)
            || is_known_at_or_before(resolved_edge.invalid_at, edge.valid_at);
        if !is_apart && is_known_before(edge.valid_at, resolved_edge.valid_at) {
            let mut closed = edge.clone();
            closed.invalid_at = resolved_edge.valid_at;
            closed.expired_at = match edge.expired_at {
                Some(t) => Some(t),
                None => Some(now),
            };
            let ghost before = out@;
            out.push(closed);
            assert(types::edge_views(out@) =~= types::edge_views(before).push(closed@));
        }
        i += 1;
    }
    assert(all.take(all.len() as int) =~= all);
    out
}

/// The earliest beginning among the candidates that comes after `start`.
pub open spec fn earliest_after(
    candidates: Seq<EntityEdgeView>,
    start: Timestamp,
) -> Option<Timestamp>
    decreases candidates.len(),
{
    if candidates.len() == 0 {
        None
    } else {
        let best = earliest_after(candidates.drop_last(), start);
        match candidates.last().valid_at {
            Some(t) => if start.before(t) && (best is None || t.before(best->0)) {
                Some(t)
            } else {
                best
            },
            None => best,
        }
    }
}

/// A new fact once its dates are held against those of the facts that contradict it.
pub open spec fn held_against(
    edge: EntityEdgeView,
    candidates: Seq<EntityEdgeView>,
    now: Timestamp,
) -> EntityEdgeView {
    if edge.expired_at is Some {
        edge
    } else if edge.invalid_at is Some {
        EntityEdgeView { expired_at: Some(now), ..edge }
    } else {
        match edge.valid_at {
            Some(start) => match earliest_after(candidates, start) {
                Some(t) => EntityEdgeView { invalid_at: Some(t), expired_at: Some(now), ..edge },
                None => edge,
            },
            None => edge,
        }
    }
}

/// Expires a new fact that is over already: one that has an end, or one after whose beginning
/// a fact that contradicts it began; it then ends where the earliest of those begins.
pub fn expire_new_edge_against_candidates(
    resolved_edge: &mut EntityEdge,
    invalidation_candidates: &[EntityEdge],
    now: Timestamp,
)
    ensures
        final(resolved_edge)@ == held_against(
            old(resolved_edge)@,
            types::edge_views(invalidation_candidates@),
            now,
        ),
{
    if resolved_edge.expired_at.is_some() {
        return;
    }
    if resolved_edge.invalid_at.is_some() {
        resolved_edge.expired_at = Some(now);
        return;
    }
    match resolved_edge.valid_at {
        Some(start) => {
            let mut best: Option<Timestamp> = None;
            let ghost all = types::edge_views(invalidation_candidates@);
            let mut i: usize = 0;
            while i < invalidation_candidates.len()
                invariant
                    i <= invalidation_candidates@.len(),
                    all == types::edge_views(invalidation_candidates@),
                    best == earliest_after(all.take(i as int), start),
                decreases invalidation_candidates.len() - i,
            {
                proof {
                    assert(all.take(i as int + 1).drop_last() =~= all.take(i as int));
                    assert(all.take(i as int + 1).last() == invalidation_candidates@[i as int]@);
                }
                match invalidation_candidates[i].valid_at {
                    Some(t) => {
                        let better = match best {
                            Some(b) => t.is_before(&b),
                            None => true,
                        };
                        if start.is_before(&t) && better {
                            best = Some(t);
                        }
                    },
                    None => {},
                }
                i += 1;
            }
            assert(all.take(all.len() as int) =~= all);
            match best {
                Some(t) => {
                    resolved_edge.invalid_at = Some(t);
                    resolved_edge.expired_at = Some(now);
                },
                None => {},
            }
        },
        None => {},
    }
}

/// The earliest beginning after `start` is one of a candidate, comes after `start`, and no
/// candidate begins between the two. There is none exactly where no candidate begins later.
pub proof fn law_earliest_after_is_earliest(
    candidates: Seq<EntityEdgeView>,
    start: Timestamp,
    i: int,
)
    requires
        0 <= i < candidates.len(),
    ensures
        match earliest_after(candidates, start) {
            Some(t) => {
                &&& start.before(t)
                &&& exists|j: int|
                    0 <= j < candidates.len() && (#[trigger] candidates[j]).valid_at == Some(t)
                &&& (candidates[i].valid_at matches Some(u) ==> !(start.before(u) && u.before(t)))
            },
            None => candidates[i].valid_at matches Some(u) ==> !start.before(u),
        },
    decreases candidates.len(),
{
    let init = candidates.drop_last();
    if i < init.len() {
        assert(init[i] == candidates[i]);
        law_earliest_after_is_earliest(init, start, i);
    } else if init.len() > 0 {
        law_earliest_after_is_earliest(init, start, 0);
    }
    match earliest_after(candidates, start) {
        Some(t) => {
            if earliest_after(init, start) == Some(t) {
                let j = choose|j: int|
                    0 <= j < init.len() && (#[trigger] init[j]).valid_at == Some(t);
                assert(candidates[j].valid_at == Some(t));
            } else {
                assert(candidates[candidates.len() - 1].valid_at == Some(t));
            }
        },
        None => {},
    }
}

/// A fact that was put an end to keeps everything but its end and its expiry. It ends where
/// the newer fact begins, after its own beginning, so the two are apart; it is expired, since
/// before where it was.
pub proof fn law_invalidation_closes_the_interval(
    existing: EntityEdgeView,
    resolved: EntityEdgeView,
    now: Timestamp,
)
    requires
        invalidates(resolved, existing),
    ensures
        ({
            let closed = invalidated(existing, resolved, now);
            &&& closed.invalid_at == resolved.valid_at
            &&& known_before(closed.valid_at, closed.invalid_at)
            &&& apart(closed, resolved)
            &&& closed.expired_at is Some
            &&& existing.expired_at is Some ==> closed.expired_at == existing.expired_at
            &&& closed == EntityEdgeView {
                invalid_at: closed.invalid_at,
                expired_at: closed.expired_at,
                ..existing
            }
        }),
{
}

/// A fact that was put an end to is not put an end to again by the same fact.
pub proof fn law_invalidation_happens_once(
    existing: EntityEdgeView,
    resolved: EntityEdgeView,
    now: Timestamp,
    later: Timestamp,
)
    requires
        invalidates(resolved, existing),
    ensures
        !invalidates(resolved, invalidated(existing, resolved, now)),
        invalidated_facts(resolved, seq![invalidated(existing, resolved, now)], later)
            == Seq::<EntityEdgeView>::empty(),
{
    let s = seq![invalidated(existing, resolved, now)];
    assert(s.drop_last() =~= Seq::<EntityEdgeView>::empty());
    assert(invalidated_facts(resolved, s.drop_last(), later) == Seq::<EntityEdgeView>::empty());
}

/// Two facts never put an end to each other, and a fact without a beginning neither ends
/// another nor is ended.
pub proof fn law_invalidation_goes_forward(a: EntityEdgeView, b: EntityEdgeView)
    ensures
        !(invalidates(a, b) && invalidates(b, a)),
        invalidates(a, b) ==> a.valid_at is Some && b.valid_at is Some,
        a.valid_at == b.valid_at ==> !invalidates(a, b),
{
}

/// Holding a new fact against others twice changes nothing more, and what it changes is the
/// end and the expiry alone. A new fact that has an end afterwards is expired.
pub proof fn law_new_fact_is_expired_once(
    edge: EntityEdgeView,
    candidates: Seq<EntityEdgeView>,
    now: Timestamp,
    later: Timestamp,
)
    ensures
        ({
            let held = held_against(edge, candidates, now);
            &&& held_against(held, candidates, later) == held
            &&& held == EntityEdgeView {
                invalid_at: held.invalid_at,
                expired_at: held.expired_at,
                ..edge
            }
            &&& held.invalid_at is Some ==> held.expired_at is Some
            &&& edge.invalid_at is Some ==> held.invalid_at == edge.invalid_at
            &&& edge.expired_at is Some ==> held == edge
        }),
{
}

/// What a fact puts an end to is among the candidates: each fact that comes out is one of them
/// that it invalidates, closed, and each candidate that it invalidates comes out.
pub proof fn law_candidates_that_are_invalidated_come_out(
    resolved: EntityEdgeView,
    candidates: Seq<EntityEdgeView>,
    now: Timestamp,
    e: EntityEdgeView,
)
    ensures
        invalidated_facts(resolved, candidates, now).contains(e) <==> exists|i: int|
            0 <= i < candidates.len() && invalidates(resolved, #[trigger] candidates[i]) && e
                == invalidated(candidates[i], resolved, now),
    decreases candidates.len(),
{
    let out = invalidated_facts(resolved, candidates, now);
    if candidates.len() > 0 {
        let init = candidates.drop_last();
        let before = invalidated_facts(resolved, init, now);
        law_candidates_that_are_invalidated_come_out(resolved, init, now, e);
        if out.contains(e) {
            let k = choose|k: int| 0 <= k < out.len() && out[k] == e;
            if k < before.len() {
                assert(before[k] == e);
                let i = choose|i: int|
                    0 <= i < init.len() && invalidates(resolved, #[trigger] init[i]) && e
                        == invalidated(init[i], resolved, now);
                assert(candidates[i] == init[i]);
            } else {
                assert(invalidates(resolved, candidates[candidates.len() - 1]));
            }
        }
        if exists|i: int|
            0 <= i < candidates.len() && invalidates(resolved, #[trigger] candidates[i]) && e
                == invalidated(candidates[i], resolved, now) {
            let i = choose|i: int|
                0 <= i < candidates.len() && invalidates(resolved, #[trigger] candidates[i]) && e
                    == invalidated(candidates[i], resolved, now);
            if i < init.len() {
                assert(init[i] == candidates[i]);
                let k = choose|k: int| 0 <= k < before.len() && before[k] == e;
                assert(out[k] == e);
            } else {
                assert(out[out.len() - 1] == e);
            }
        }
    }
}

/// Holds where a fact was still true, or its end was not known, right after an instant.
pub open spec fn lasts_beyond(end: Option<Timestamp>, t: Timestamp) -> bool {
    end is None || end->0.seconds() > t.seconds() || (end->0.seconds() == t.seconds()
        && end->0.nanoseconds() > t.nanoseconds())
}

/// Holds where the beginnings of two facts are known, the first began earlier, and each was still
/// true, or had no known end, when the other began.
pub open spec fn overtaken(
    began: Option<Timestamp>,
    ended: Option<Timestamp>,
    other_began: Option<Timestamp>,
    other_ended: Option<Timestamp>,
) -> bool {
    &&& began is Some
    &&& other_began is Some
    &&& began->0.seconds() < other_began->0.seconds() || (began->0.seconds()
        == other_began->0.seconds() && began->0.nanoseconds() < other_began->0.nanoseconds())
    &&& lasts_beyond(ended, other_began->0)
    &&& lasts_beyond(other_ended, began->0)
}

/// A new fact closes exactly those of the known facts that it contradicts which began before it,
/// unless one of the two was over when the other began; whether the new fact has an end itself does
/// not matter. Each of them ends where the new fact begins, is expired from now on unless it was
/// before, and keeps everything else. They come out in order.
pub proof fn law_overtaken_facts_are_closed(
    resolved: EntityEdgeView,
    candidates: Seq<EntityEdgeView>,
    now: Timestamp,
) -> (at: Seq<int>)
    ensures
        selection::selects(
            candidates,
            invalidated_facts(resolved, candidates, now),
            at,
            |i: int, a: EntityEdgeView|
                overtaken(a.valid_at, a.invalid_at, resolved.valid_at, resolved.invalid_at),
            |a: EntityEdgeView|
                EntityEdgeView {
                    invalid_at: resolved.valid_at,
                    expired_at: if a.expired_at is Some {
                        a.expired_at
                    } else {
                        Some(now)
                    },
                    ..a
                },
        ),
    decreases candidates.len(),
{
    let keep = |i: int, a: EntityEdgeView|
        overtaken(a.valid_at, a.invalid_at, resolved.valid_at, resolved.invalid_at);
    let make = |a: EntityEdgeView|
        EntityEdgeView {
            invalid_at: resolved.valid_at,
            expired_at: if a.expired_at is Some {
                a.expired_at
            } else {
                Some(now)
            },
            ..a
        };
    if candidates.len() == 0 {
        Seq::empty()
    } else {
        let init = candidates.drop_last();
        let last = candidates.last();
        let before = law_overtaken_facts_are_closed(resolved, init, now);
        let out = invalidated_facts(resolved, init, now);
        selection::lemma_selects_next(candidates, out, before, keep, keep, make);
        if keep(candidates.len() - 1, last) {
            before.push(candidates.len() - 1)
        } else {
            before
        }
    }
}

/// A known fact that began before the new one, and of which neither was over when the other began,
/// comes out closed at the beginning of the new one.
pub proof fn law_older_fact_is_closed(
    resolved: EntityEdgeView,
    candidates: Seq<EntityEdgeView>,
    now: Timestamp,
    i: int,
    s: Timestamp,
    t: Timestamp,
)
    requires
        0 <= i < candidates.len(),
        candidates[i].valid_at == Some(s),
        resolved.valid_at == Some(t),
        s.before(t),
        candidates[i].invalid_at is None || t.before(candidates[i].invalid_at->0),
        resolved.invalid_at is None || s.before(resolved.invalid_at->0),
    ensures
        invalidates(resolved, candidates[i]),
        exists|k: int|
            0 <= k < invalidated_facts(resolved, candidates, now).len() && (
            #[trigger] invalidated_facts(resolved, candidates, now)[k]) == (EntityEdgeView {
                invalid_at: Some(t),
                expired_at: if candidates[i].expired_at is Some {
                    candidates[i].expired_at
                } else {
                    Some(now)
                },
                ..candidates[i]
            }),
{
    let at = law_overtaken_facts_are_closed(resolved, candidates, now);
    let k = choose|k: int| 0 <= k < at.len() && at[k] == i;
    assert(invalidated_facts(resolved, candidates, now)[k].invalid_at == Some(t));
}

/// A new fact is expired where it has an end, or where a fact that contradicts it began after it;
/// the fact ends where the earliest of those began. Otherwise it stays as it is.
pub proof fn law_superseded_fact_is_expired(
    edge: EntityEdgeView,
    candidates: Seq<EntityEdgeView>,
    now: Timestamp,
    s: Timestamp,
)
    requires
        edge.expired_at is None,
        edge.valid_at == Some(s),
    ensures
        ({
            let held = held_against(edge, candidates, now);
            &&& edge.invalid_at is Some ==> held == EntityEdgeView {
                expired_at: Some(now),
                ..edge
            }
            &&& edge.invalid_at is None ==> {
                ||| {
                    &&& held == edge
                    &&& forall|j: int|
                        0 <= j < candidates.len() && (#[trigger] candidates[j]).valid_at is Some
                            ==> !s.before(candidates[j].valid_at->0)
                }
                ||| exists|i: int|
                    {
                        &&& 0 <= i < candidates.len()
                        &&& (#[trigger] candidates[i]).valid_at is Some
                        &&& s.before(candidates[i].valid_at->0)
                        &&& forall|j: int|
                            0 <= j < candidates.len() && (#[trigger] candidates[j]).valid_at is Some
                                && s.before(candidates[j].valid_at->0)
                                ==> !candidates[j].valid_at->0.before(candidates[i].valid_at->0)
                        &&& held == EntityEdgeView {
                            invalid_at: candidates[i].valid_at,
                            expired_at: Some(now),
                            ..edge
                        }
                    }
            }
        }),
{
    if edge.invalid_at is None {
        match earliest_after(candidates, s) {
            Some(t) => {
                if candidates.len() > 0 {
                    law_earliest_after_is_earliest(candidates, s, 0);
                }
                let i = choose|j: int|
                    0 <= j < candidates.len() && (#[trigger] candidates[j]).valid_at == Some(t);
                assert forall|j: int|
                    0 <= j < candidates.len() && (#[trigger] candidates[j]).valid_at is Some
                        && s.before(
                        candidates[j].valid_at->0,
                    ) implies !candidates[j].valid_at->0.before(t) by {
                    law_earliest_after_is_earliest(candidates, s, j);
                }
                assert(candidates[i].valid_at is Some);
            },
            None => {
                assert forall|j: int|
                    0 <= j < candidates.len() && (#[trigger] candidates[j]).valid_at
                        is Some implies !s.before(candidates[j].valid_at->0) by {
                    law_earliest_after_is_earliest(candidates, s, j);
                }
            },
        }
    }
}

/// A fact that is expired already, or that has neither a beginning nor an end, stays as it is when
/// it is held against others. One with an end alone is expired.
pub proof fn law_undated_or_expired_fact_stays(
    edge: EntityEdgeView,
    candidates: Seq<EntityEdgeView>,
    now: Timestamp,
)
    ensures
        edge.expired_at is Some ==> held_against(edge, candidates, now) == edge,
        edge.valid_at is None && edge.invalid_at is None ==> held_against(edge, candidates, now)
            == edge,
        edge.expired_at is None && edge.invalid_at is Some ==> held_against(edge, candidates, now)
            == (EntityEdgeView { expired_at: Some(now), ..edge }),
{
}

} // verus!
