//! What a pass of label propagation promises.
use crate::driver::{NeighborView, NodeNeighborsView};
use crate::pipeline::label_propagation;
use crate::selection;
use vstd::prelude::*;

verus! {

/// A node is listed at the last position with its identifier, and nowhere where no position has
/// it.
pub proof fn law_node_is_listed_last(p: Seq<NodeNeighborsView>, uuid: Seq<char>, i: int)
    ensures
        0 <= i < p.len() && p[i].node_uuid == uuid && (forall|j: int|
            i < j < p.len() ==> (#[trigger] p[j]).node_uuid != uuid) ==> label_propagation::owner(
            p,
            uuid,
        ) == i,
        (forall|j: int| 0 <= j < p.len() ==> (#[trigger] p[j]).node_uuid != uuid)
            <==> label_propagation::owner(p, uuid) < 0,
        label_propagation::owner(p, uuid) < p.len(),
    decreases p.len(),
{
    if p.len() > 0 {
        let init = p.drop_last();
        let n = p.len() - 1;
        assert(p[n] == p.last());
        law_node_is_listed_last(init, uuid, i);
        if p.last().node_uuid != uuid {
            if 0 <= i < n && p[i].node_uuid == uuid && (forall|j: int|
                i < j < p.len() ==> (#[trigger] p[j]).node_uuid != uuid) {
                assert forall|j: int| i < j < init.len() implies (#[trigger] init[j]).node_uuid
                    != uuid by {
                    assert(init[j] == p[j]);
                }
            }
            if forall|j: int| 0 <= j < init.len() ==> (#[trigger] init[j]).node_uuid != uuid {
                assert forall|j: int| 0 <= j < p.len() implies (#[trigger] p[j]).node_uuid
                    != uuid by {
                    if j < n {
                        assert(init[j] == p[j]);
                    }
                }
            }
            if forall|j: int| 0 <= j < p.len() ==> (#[trigger] p[j]).node_uuid != uuid {
                assert forall|j: int| 0 <= j < init.len() implies (#[trigger] init[j]).node_uuid
                    != uuid by {
                    assert(init[j] == p[j]);
                }
            }
        } else if 0 <= i < n {
            assert(p[n].node_uuid == uuid);
        }
    }
}

/// The weight of a label among neighbours is that among some of them and that among the others. A
/// single neighbour gives its edges to its own label, and none to another.
pub proof fn law_weights_add_up(
    p: Seq<NodeNeighborsView>,
    a: Seq<NeighborView>,
    b: Seq<NeighborView>,
    labels: Seq<int>,
    c: int,
    n: NeighborView,
)
    ensures
        label_propagation::weight(p, a + b, labels, c) == label_propagation::weight(p, a, labels, c)
            + label_propagation::weight(p, b, labels, c),
        label_propagation::owner(p, n.node_uuid) >= 0 && labels[label_propagation::owner(
            p,
            n.node_uuid,
        )] == c ==> label_propagation::weight(p, seq![n], labels, c) == n.edge_count,
        label_propagation::owner(p, n.node_uuid) < 0 || labels[label_propagation::owner(
            p,
            n.node_uuid,
        )] != c ==> label_propagation::weight(p, seq![n], labels, c) == 0,
    decreases b.len(),
{
    assert(seq![n].drop_last() =~= Seq::<NeighborView>::empty());
    assert(label_propagation::weight(p, seq![n].drop_last(), labels, c) == 0);
    if b.len() == 0 {
        assert(a + b =~= a);
    } else {
        assert((a + b).drop_last() =~= a + b.drop_last());
        assert((a + b).last() == b.last());
        law_weights_add_up(p, a, b.drop_last(), labels, c, n);
    }
}

/// Holds where a listed neighbour carries a label.
pub open spec fn is_carried(
    p: Seq<NodeNeighborsView>,
    neighbors: Seq<NeighborView>,
    labels: Seq<int>,
    c: int,
) -> bool {
    exists|j: int|
        0 <= j < neighbors.len() && label_propagation::owner(p, (#[trigger] neighbors[j]).node_uuid)
            >= 0 && labels[label_propagation::owner(p, neighbors[j].node_uuid)] == c
}

/// A node takes over the heaviest label of its neighbours, the greatest of those that are equally
/// heavy, where it weighs more than one or is greater than its own label. Otherwise, and where no
/// neighbour is listed, it keeps its own.
pub proof fn law_heaviest_label_is_taken_over(
    p: Seq<NodeNeighborsView>,
    neighbors: Seq<NeighborView>,
    labels: Seq<int>,
    current: int,
    c: int,
)
    requires
        is_carried(p, neighbors, labels, c),
        forall|d: int|
            #[trigger] is_carried(p, neighbors, labels, d) ==> label_propagation::weight(
                p,
                neighbors,
                labels,
                d,
            ) < label_propagation::weight(p, neighbors, labels, c) || (label_propagation::weight(
                p,
                neighbors,
                labels,
                d,
            ) == label_propagation::weight(p, neighbors, labels, c) && d <= c),
    ensures
        label_propagation::weight(p, neighbors, labels, c) > 1 || c > current
            ==> label_propagation::next_label(p, neighbors, labels, current) == c,
        label_propagation::weight(p, neighbors, labels, c) <= 1 && c <= current
            ==> label_propagation::next_label(p, neighbors, labels, current) == current,
{
    let n = neighbors.len();
    label_propagation::law_candidate_is_heaviest(p, neighbors, labels, n);
    let j = choose|j: int|
        0 <= j < neighbors.len() && label_propagation::owner(p, (#[trigger] neighbors[j]).node_uuid)
            >= 0 && labels[label_propagation::owner(p, neighbors[j].node_uuid)] == c;
    assert(label_propagation::owner(p, neighbors[j].node_uuid) >= 0);
    if let Some((w, b)) = label_propagation::best_candidate(p, neighbors, labels, n) {
        assert(is_carried(p, neighbors, labels, b));
        assert(b == c);
    }
}

/// A node without a listed neighbour keeps its label.
pub proof fn law_lone_node_keeps_its_label(
    p: Seq<NodeNeighborsView>,
    neighbors: Seq<NeighborView>,
    labels: Seq<int>,
    current: int,
)
    requires
        forall|j: int|
            0 <= j < neighbors.len() ==> label_propagation::owner(
                p,
                (#[trigger] neighbors[j]).node_uuid,
            ) < 0,
    ensures
        label_propagation::next_label(p, neighbors, labels, current) == current,
{
    label_propagation::law_candidate_is_heaviest(p, neighbors, labels, neighbors.len());
}

/// The labels after `n` passes, in each of which every node looks at the labels before the pass.
pub open spec fn after_passes(p: Seq<NodeNeighborsView>, labels: Seq<int>, n: nat) -> Seq<int>
    decreases n,
{
    if n == 0 {
        labels
    } else {
        let before = after_passes(p, labels, (n - 1) as nat);
        Seq::new(
            p.len(),
            |i: int|
                label_propagation::next_label(
                    p,
                    p[i].neighbors,
                    before,
                    before[label_propagation::owner(p, p[i].node_uuid)],
                ),
        )
    }
}

proof fn lemma_passes_before(p: Seq<NodeNeighborsView>, labels: Seq<int>, n: nat)
    ensures
        after_passes(p, label_propagation::next_labels(p, labels), n) == after_passes(
            p,
            labels,
            n + 1,
        ),
    decreases n,
{
    if n == 0 {
        assert(after_passes(p, labels, 0) == labels);
        assert(after_passes(p, labels, 1) =~= label_propagation::next_labels(p, labels));
    } else {
        lemma_passes_before(p, labels, (n - 1) as nat);
        assert(after_passes(p, label_propagation::next_labels(p, labels), n) =~= after_passes(
            p,
            labels,
            n + 1,
        ));
    }
}

/// Holds where another pass would change no label.
pub open spec fn is_stable(p: Seq<NodeNeighborsView>, labels: Seq<int>) -> bool {
    forall|i: int|
        0 <= i < p.len() ==> label_propagation::next_label(
            p,
            (#[trigger] p[i]).neighbors,
            labels,
            labels[label_propagation::owner(p, p[i].node_uuid)],
        ) == labels[label_propagation::owner(p, p[i].node_uuid)]
}

proof fn lemma_stable(p: Seq<NodeNeighborsView>, labels: Seq<int>)
    ensures
        is_stable(p, labels) <==> label_propagation::settled(p, labels),
{
    let next = label_propagation::next_labels(p, labels);
    if label_propagation::settled(p, labels) {
        assert forall|i: int| 0 <= i < p.len() implies label_propagation::next_label(
            p,
            (#[trigger] p[i]).neighbors,
            labels,
            labels[label_propagation::owner(p, p[i].node_uuid)],
        ) == labels[label_propagation::owner(p, p[i].node_uuid)] by {
            assert(next[i] == label_propagation::label_of(p, labels, i));
        }
    }
    if is_stable(p, labels) {
        assert forall|i: int| 0 <= i < p.len() implies #[trigger] next[i]
            == label_propagation::label_of(p, labels, i) by {
            assert(p[i].neighbors == p[i].neighbors);
        }
    }
}

proof fn lemma_passes(p: Seq<NodeNeighborsView>, labels: Seq<int>, passes: nat) -> (n: nat)
    ensures
        n <= passes,
        label_propagation::propagate(p, labels, passes) == after_passes(p, labels, n),
        n < passes ==> is_stable(p, after_passes(p, labels, n)),
        forall|m: nat| m < n ==> !is_stable(p, #[trigger] after_passes(p, labels, m)),
    decreases passes,
{
    lemma_stable(p, labels);
    assert(after_passes(p, labels, 0) == labels);
    if passes == 0 || label_propagation::settled(p, labels) {
        0
    } else {
        let next = label_propagation::next_labels(p, labels);
        let n = lemma_passes(p, next, (passes - 1) as nat);
        lemma_passes_before(p, labels, n);
        assert forall|m: nat| m < n + 1 implies !is_stable(
            p,
            #[trigger] after_passes(p, labels, m),
        ) by {
            if m > 0 {
                lemma_passes_before(p, labels, (m - 1) as nat);
                assert(!is_stable(p, after_passes(p, next, (m - 1) as nat)));
            }
        }
        n + 1
    }
}

/// The numbers below `n`, in order.
pub open spec fn numbers_below(n: nat) -> Seq<int> {
    Seq::new(n, |i: int| i)
}

/// The labels are those after the first pass that leaves none to change, or after a thousand passes.
/// At the start every node has its own position for a label.
pub proof fn law_labels_are_passed_on_until_they_settle(p: Seq<NodeNeighborsView>) -> (n: nat)
    ensures
        n <= 1000,
        label_propagation::final_labels(p) == after_passes(p, numbers_below(p.len()), n),
        n < 1000 ==> is_stable(p, label_propagation::final_labels(p)),
        forall|m: nat|
            m < n ==> !is_stable(p, #[trigger] after_passes(p, numbers_below(p.len()), m)),
{
    let start = numbers_below(p.len());
    assert(label_propagation::initial_labels(p.len()) =~= start);
    lemma_passes(p, start, 1000)
}

/// The members of a label are the nodes that carry it, in order.
pub proof fn law_members_carry_the_label(
    p: Seq<NodeNeighborsView>,
    labels: Seq<int>,
    c: int,
    k: nat,
) -> (at: Seq<int>)
    requires
        k <= p.len(),
    ensures
        selection::selects(
            p.take(k as int),
            label_propagation::members(p, labels, c, k),
            at,
            |i: int, n: NodeNeighborsView| labels[label_propagation::owner(p, n.node_uuid)] == c,
            |n: NodeNeighborsView| n.node_uuid,
        ),
    decreases k,
{
    let keep = |i: int, n: NodeNeighborsView|
        labels[label_propagation::owner(p, n.node_uuid)] == c;
    let make = |n: NodeNeighborsView| n.node_uuid;
    if k == 0 {
        Seq::empty()
    } else {
        let upto = p.take(k as int);
        let at = law_members_carry_the_label(p, labels, c, (k - 1) as nat);
        assert(upto.drop_last() =~= p.take(k - 1));
        assert(upto.last() == p[k - 1]);
        selection::lemma_selects_next(
            upto,
            label_propagation::members(p, labels, c, (k - 1) as nat),
            at,
            keep,
            keep,
            make,
        );
        if keep(k - 1, p[k - 1]) {
            at.push(k - 1)
        } else {
            at
        }
    }
}

/// The communities are the members of the labels that some node ends up with, in the order of the
/// labels.
pub proof fn law_every_label_is_a_community(p: Seq<NodeNeighborsView>, c: nat) -> (at: Seq<int>)
    ensures
        selection::selects(
            numbers_below(c),
            label_propagation::clusters_below(p, label_propagation::final_labels(p), c),
            at,
            |i: int, l: int|
                label_propagation::members(
                    p,
                    label_propagation::final_labels(p),
                    l,
                    p.len(),
                ).len() > 0,
            |l: int|
                label_propagation::members(p, label_propagation::final_labels(p), l, p.len()),
        ),
        label_propagation::communities(p) == label_propagation::clusters_below(
            p,
            label_propagation::final_labels(p),
            p.len(),
        ),
    decreases c,
{
    let keep = |i: int, l: int|
        label_propagation::members(
            p,
            label_propagation::final_labels(p),
            l,
            p.len(),
        ).len() > 0;
    let make = |l: int|
        label_propagation::members(p, label_propagation::final_labels(p), l, p.len());
    if c == 0 {
        Seq::empty()
    } else {
        let all = numbers_below(c);
        let at = law_every_label_is_a_community(p, (c - 1) as nat);
        assert(all.drop_last() =~= numbers_below((c - 1) as nat));
        selection::lemma_selects_next(
            all,
            label_propagation::clusters_below(
                p,
                label_propagation::final_labels(p),
                (c - 1) as nat,
            ),
            at,
            keep,
            keep,
            make,
        );
        assert(all.last() == c - 1);
        if keep(c - 1, c - 1) {
            at.push(c - 1)
        } else {
            at
        }
    }
}

} // verus!
