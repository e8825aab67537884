//! Community detection by synchronous label propagation.
use crate::driver::{NeighborView, NodeNeighbors, NodeNeighborsView};
use crate::pipeline::uuid_map::{self, Alias};
use crate::text::{self, str_eq};
use vstd::prelude::*;

verus! {

/// The number of passes after which a labelling that does not settle is taken as it is.
pub const MAX_LABEL_PROPAGATION_ITERATIONS: usize = 1000;

/// The nodes of a projection as plain values.
pub open spec fn projection_view(projection: Seq<NodeNeighbors>) -> Seq<NodeNeighborsView> {
    projection.map_values(|n: NodeNeighbors| n@)
}

/// The last position at which the projection lists `uuid`, or -1.
pub open spec fn owner(p: Seq<NodeNeighborsView>, uuid: Seq<char>) -> int
    decreases p.len(),
{
    if p.len() == 0 {
        -1
    } else if p.last().node_uuid == uuid {
        p.len() - 1
    } else {
        owner(p.drop_last(), uuid)
    }
}

/// The summed edge counts towards the neighbours that carry the label `c`.
pub open spec fn weight(
    p: Seq<NodeNeighborsView>,
    neighbors: Seq<NeighborView>,
    labels: Seq<int>,
    c: int,
) -> nat
    decreases neighbors.len(),
{
    if neighbors.len() == 0 {
        0
    } else {
        let o = owner(p, neighbors.last().node_uuid);
        weight(p, neighbors.drop_last(), labels, c) + (if o >= 0 && labels[o] == c {
            neighbors.last().edge_count
        } else {
            0
        })
    }
}

/// The greatest pair of weight and label among the labels of the first `k` neighbours.
pub open spec fn best_candidate(
    p: Seq<NodeNeighborsView>,
    neighbors: Seq<NeighborView>,
    labels: Seq<int>,
    k: nat,
) -> Option<(nat, int)>
    decreases k,
{
    if k == 0 {
        None
    } else {
        let best = best_candidate(p, neighbors, labels, (k - 1) as nat);
        let o = owner(p, neighbors[k - 1].node_uuid);
        if o < 0 {
            best
        } else {
            let c = labels[o];
            let w = weight(p, neighbors, labels, c);
            match best {
                Some((bw, bc)) => if w > bw || (w == bw && c > bc) {
                    Some((w, c))
                } else {
                    best
                },
                None => Some((w, c)),
            }
        }
    }
}

/// The label that a node takes over in the next pass.
pub open spec fn next_label(
    p: Seq<NodeNeighborsView>,
    neighbors: Seq<NeighborView>,
    labels: Seq<int>,
    current: int,
) -> int {
    match best_candidate(p, neighbors, labels, neighbors.len()) {
        Some((w, c)) => if w > 1 || c > current {
            c
        } else {
            current
        },
        None => current,
    }
}

/// The label of the i-th node: that of the last node listed under the same identifier.
pub open spec fn label_of(p: Seq<NodeNeighborsView>, labels: Seq<int>, i: int) -> int {
    labels[owner(p, p[i].node_uuid)]
}

/// The labels after one pass in which every node looks at the labels before the pass.
pub open spec fn next_labels(p: Seq<NodeNeighborsView>, labels: Seq<int>) -> Seq<int> {
    Seq::new(
        p.len(),
        |i: int| next_label(p, p[i].neighbors, labels, label_of(p, labels, i)),
    )
}

/// Holds where a pass changes no label.
pub open spec fn settled(p: Seq<NodeNeighborsView>, labels: Seq<int>) -> bool {
    forall|i: int|
        0 <= i < p.len() ==> #[trigger] next_labels(p, labels)[i] == label_of(p, labels, i)
}

/// The labels after passing until they settle, `passes` times at most.
pub open spec fn propagate(p: Seq<NodeNeighborsView>, labels: Seq<int>, passes: nat) -> Seq<int>
    decreases passes,
{
    if passes == 0 || settled(p, labels) {
        labels
    } else {
        propagate(p, next_labels(p, labels), (passes - 1) as nat)
    }
}

/// The labels at the start: every node has its own position.
pub open spec fn initial_labels(n: nat) -> Seq<int> {
    Seq::new(n, |i: int| i)
}

/// The labels that the nodes end up with.
pub open spec fn final_labels(p: Seq<NodeNeighborsView>) -> Seq<int> {
    propagate(p, initial_labels(p.len()), MAX_LABEL_PROPAGATION_ITERATIONS as nat)
}

/// Among the first `k` nodes those that carry the label `c`, in order.
pub open spec fn members(p: Seq<NodeNeighborsView>, labels: Seq<int>, c: int, k: nat) -> Seq<
    Seq<char>,
>
    decreases k,
{
    if k == 0 {
        Seq::empty()
    } else {
        let before = members(p, labels, c, (k - 1) as nat);
        if label_of(p, labels, k - 1) == c {
            before.push(p[k - 1].node_uuid)
        } else {
            before
        }
    }
}

/// The groups of nodes with a common label below `c`, in the order of their labels.
pub open spec fn clusters_below(p: Seq<NodeNeighborsView>, labels: Seq<int>, c: nat) -> Seq<
    Seq<Seq<char>>,
>
    decreases c,
{
    if c == 0 {
        Seq::empty()
    } else {
        let before = clusters_below(p, labels, (c - 1) as nat);
        let group = members(p, labels, c - 1, p.len());
        if group.len() > 0 {
            before.push(group)
        } else {
            before
        }
    }
}

/// The communities of a projection.
pub open spec fn communities(p: Seq<NodeNeighborsView>) -> Seq<Seq<Seq<char>>> {
    clusters_below(p, final_labels(p), p.len())
}

/// Holds where every label is the position of a node.
pub open spec fn labels_in_range(labels: Seq<int>, n: nat) -> bool {
    &&& labels.len() == n
    &&& forall|i: int| 0 <= i < n ==> 0 <= #[trigger] labels[i] < n
}

proof fn lemma_owner_range(p: Seq<NodeNeighborsView>, uuid: Seq<char>)
    ensures
        -1 <= owner(p, uuid) < p.len(),
        owner(p, uuid) >= 0 ==> p[owner(p, uuid)].node_uuid == uuid,
    decreases p.len(),
{
    if p.len() > 0 && p.last().node_uuid != uuid {
        lemma_owner_range(p.drop_last(), uuid);
    }
}

proof fn lemma_owner_exists(p: Seq<NodeNeighborsView>, i: int)
    requires
        0 <= i < p.len(),
    ensures
        i <= owner(p, p[i].node_uuid) < p.len(),
    decreases p.len(),
{
    if p.last().node_uuid != p[i].node_uuid {
        assert(i < p.len() - 1);
        assert(p.drop_last()[i] == p[i]);
        lemma_owner_exists(p.drop_last(), i);
    }
}

proof fn lemma_owner_is_last(p: Seq<NodeNeighborsView>, uuid: Seq<char>, at: int)
    requires
        -1 <= at < p.len(),
        at >= 0 ==> p[at].node_uuid == uuid,
        forall|j: int| at < j < p.len() ==> (#[trigger] p[j]).node_uuid != uuid,
    ensures
        owner(p, uuid) == at,
    decreases p.len(),
{
    if p.len() > 0 && at < p.len() - 1 {
        assert(p[p.len() - 1].node_uuid != uuid);
        assert forall|j: int| at < j < p.drop_last().len() implies (#[trigger] p.drop_last()[j]).node_uuid
            != uuid by {
            assert(p[j].node_uuid != uuid);
        }
        lemma_owner_is_last(p.drop_last(), uuid, at);
    }
}

proof fn lemma_best_in_range(
    p: Seq<NodeNeighborsView>,
    neighbors: Seq<NeighborView>,
    labels: Seq<int>,
    k: nat,
)
    requires
        labels_in_range(labels, p.len()),
    ensures
        best_candidate(p, neighbors, labels, k) matches Some((w, c)) ==> 0 <= c < p.len(),
    decreases k,
{
    if k > 0 {
        lemma_best_in_range(p, neighbors, labels, (k - 1) as nat);
        lemma_owner_range(p, neighbors[k - 1].node_uuid);
    }
}

proof fn lemma_next_in_range(p: Seq<NodeNeighborsView>, labels: Seq<int>)
    requires
        labels_in_range(labels, p.len()),
    ensures
        labels_in_range(next_labels(p, labels), p.len()),
{
    assert forall|i: int| 0 <= i < p.len() implies 0 <= #[trigger] next_labels(p, labels)[i]
        < p.len() by {
        lemma_best_in_range(p, p[i].neighbors, labels, p[i].neighbors.len());
        lemma_owner_exists(p, i);
    }
}

proof fn lemma_propagate_in_range(p: Seq<NodeNeighborsView>, labels: Seq<int>, passes: nat)
    requires
        labels_in_range(labels, p.len()),
    ensures
        labels_in_range(propagate(p, labels, passes), p.len()),
    decreases passes,
{
    if passes > 0 && !settled(p, labels) {
        lemma_next_in_range(p, labels);
        lemma_propagate_in_range(p, next_labels(p, labels), (passes - 1) as nat);
    }
}

/// The last position at which the projection lists `uuid`.
fn find_owner(projection: &[NodeNeighbors], uuid: &str) -> (r: Option<usize>)
    ensures
        match r {
            Some(i) => i < projection@.len() && owner(projection_view(projection@), uuid@) == i,
            None => owner(projection_view(projection@), uuid@) == -1,
        },
{
    let ghost p = projection_view(projection@);
    let mut i: usize = projection.len();
    while i > 0
        invariant
            i <= projection@.len(),
            p == projection_view(projection@),
            forall|j: int| i <= j < p.len() ==> (#[trigger] p[j]).node_uuid != uuid@,
        decreases i,
    {
        if str_eq(projection[i - 1].node_uuid.as_str(), uuid) {
            proof {
                assert(p[i - 1].node_uuid == uuid@);
                lemma_owner_is_last(p, uuid@, i - 1);
            }
            return Some(i - 1);
        }
        assert(p[i - 1].node_uuid != uuid@);
        i -= 1;
    }
    proof {
        lemma_owner_is_last(p, uuid@, -1);
    }
    None
}

/// A neighbour by the position of the node that it names, with its edge count.
pub struct Link {
    pub to: Option<usize>,
    pub count: u64,
}

/// Holds where `links` names the owners of `neighbors`.
pub open spec fn links_match(
    p: Seq<NodeNeighborsView>,
    neighbors: Seq<NeighborView>,
    links: Seq<Link>,
) -> bool {
    &&& links.len() == neighbors.len()
    &&& forall|k: int|
        0 <= k < links.len() ==> {
            &&& (#[trigger] links[k]).count == neighbors[k].edge_count
            &&& match links[k].to {
                Some(o) => o < p.len() && owner(p, neighbors[k].node_uuid) == o,
                None => owner(p, neighbors[k].node_uuid) == -1,
            }
        }
}

/// The labels as integers.
pub open spec fn int_labels(labels: Seq<usize>) -> Seq<int> {
    labels.map_values(|l: usize| l as int)
}

fn link_neighbors(projection: &[NodeNeighbors], node: &NodeNeighbors) -> (r: Vec<Link>)
    ensures
        links_match(projection_view(projection@), node@.neighbors, r@),
{
    let mut out: Vec<Link> = Vec::new();
    let mut k: usize = 0;
    let ghost p = projection_view(projection@);
    while k < node.neighbors.len()
        invariant
            k <= node.neighbors@.len(),
            p == projection_view(projection@),
            out@.len() == k,
            forall|j: int|
                0 <= j < k ==> {
                    &&& (#[trigger] out@[j]).count == node@.neighbors[j].edge_count
                    &&& match out@[j].to {
                        Some(o) => o < p.len() && owner(p, node@.neighbors[j].node_uuid) == o,
                        None => owner(p, node@.neighbors[j].node_uuid) == -1,
                    }
                },
        decreases node.neighbors.len() - k,
    {
        let to = find_owner(projection, node.neighbors[k].node_uuid.as_str());
        out.push(Link { to, count: node.neighbors[k].edge_count });
        k += 1;
    }
    out
}

fn weigh(
    Ghost(p): Ghost<Seq<NodeNeighborsView>>,
    Ghost(neighbors): Ghost<Seq<NeighborView>>,
    links: &Vec<Link>,
    labels: &Vec<usize>,
    c: usize,
) -> (r: u128)
    requires
        links_match(p, neighbors, links@),
        labels@.len() == p.len(),
    ensures
        r == weight(p, neighbors, int_labels(labels@), c as int),
{
    let mut sum: u128 = 0;
    let mut k: usize = 0;
    let ghost ls = int_labels(labels@);
    while k < links.len()
        invariant
            k <= links@.len(),
            ls == int_labels(labels@),
            links_match(p, neighbors, links@),
            labels@.len() == p.len(),
            sum == weight(p, neighbors.take(k as int), ls, c as int),
            sum <= k * 0xffff_ffff_ffff_ffff,
        decreases links.len() - k,
    {
        proof {
            assert(neighbors.take(k as int + 1).drop_last() =~= neighbors.take(k as int));
            assert(neighbors.take(k as int + 1).last() == neighbors[k as int]);
            assert(links@[k as int].count == neighbors[k as int].edge_count);
            assert(k * 0xffff_ffff_ffff_ffff + 0xffff_ffff_ffff_ffff <= u128::MAX) by (nonlinear_arith)
                requires
                    k <= 0xffff_ffff_ffff_ffff,
            ;
        }
        match links[k].to {
            Some(o) => {
                assert(ls[o as int] == labels@[o as int]);
                if labels[o] == c {
                    sum = sum + links[k].count as u128;
                }
            },
            None => {},
        }
        k += 1;
    }
    assert(neighbors.take(neighbors.len() as int) =~= neighbors);
    sum
}

/// The label that a node takes over in the next pass.
fn choose_label(
    Ghost(p): Ghost<Seq<NodeNeighborsView>>,
    Ghost(neighbors): Ghost<Seq<NeighborView>>,
    links: &Vec<Link>,
    labels: &Vec<usize>,
    current: usize,
) -> (r: usize)
    requires
        links_match(p, neighbors, links@),
        labels@.len() == p.len(),
    ensures
        r == next_label(p, neighbors, int_labels(labels@), current as int),
{
    let mut best: Option<(u128, usize)> = None;
    let mut k: usize = 0;
    let ghost ls = int_labels(labels@);
    while k < links.len()
        invariant
            k <= links@.len(),
            ls == int_labels(labels@),
            links_match(p, neighbors, links@),
            labels@.len() == p.len(),
            match best {
                Some((w, c)) => best_candidate(p, neighbors, ls, k as nat) == Some(
                    (w as nat, c as int),
                ),
                None => best_candidate(p, neighbors, ls, k as nat) is None,
            },
        decreases links.len() - k,
    {
        assert(links@[k as int].count == neighbors[k as int].edge_count);
        match links[k].to {
            Some(o) => {
                let c = labels[o];
                assert(ls[o as int] == c);
                let w = weigh(Ghost(p), Ghost(neighbors), links, labels, c);
                let better = match best {
                    Some((bw, bc)) => w > bw || (w == bw && c > bc),
                    None => true,
                };
                if better {
                    best = Some((w, c));
                }
            },
            None => {},
        }
        k += 1;
    }
    match best {
        Some((w, c)) => if w > 1 || c > current {
            c
        } else {
            current
        },
        None => current,
    }
}

/// The communities of a projection, by label propagation.
///
/// Every node starts with its own label. In each pass every node looks at the labels of its
/// neighbours before the pass, weighs each by the edge counts towards it, and takes over the
/// heaviest one, the greater label on a tie; where even that weighs no more than one edge,
/// the node takes it over only where it is greater than its own. The passes end where no
/// label changes, or after `MAX_LABEL_PROPAGATION_ITERATIONS`. Nodes with a common label
/// form a community.
pub fn label_propagation(projection: &[NodeNeighbors]) -> (r: Vec<Vec<String>>)
    ensures
        r@.map_values(|c: Vec<String>| text::views(c@)) == communities(
            projection_view(projection@),
        ),
{
    let n = projection.len();
    let ghost p = projection_view(projection@);
    let mut links: Vec<Vec<Link>> = Vec::new();
    let mut owners: Vec<usize> = Vec::new();
    let mut labels: Vec<usize> = Vec::new();
    let mut i: usize = 0;
    while i < n
        invariant
            i <= n,
            n == projection@.len(),
            p == projection_view(projection@),
            links@.len() == i,
            owners@.len() == i,
            labels@.len() == i,
            forall|j: int| 0 <= j < i ==> links_match(p, p[j].neighbors, (#[trigger] links@[j])@),
            forall|j: int|
                0 <= j < i ==> #[trigger] owners@[j] == owner(p, p[j].node_uuid) && owners@[j] < n,
            forall|j: int| 0 <= j < i ==> #[trigger] labels@[j] == j,
        decreases n - i,
    {
        links.push(link_neighbors(projection, &projection[i]));
        proof {
            lemma_owner_exists(p, i as int);
        }
        match find_owner(projection, projection[i].node_uuid.as_str()) {
            Some(o) => {
                owners.push(o);
            },
            None => {
                assert(false);
            },
        }
        labels.push(i);
        i += 1;
    }
    assert(int_labels(labels@) =~= initial_labels(p.len()));
    let mut passes: usize = 0;
    let mut done = false;
    while !done && passes < MAX_LABEL_PROPAGATION_ITERATIONS
        invariant
            n == projection@.len(),
            p == projection_view(projection@),
            links@.len() == n,
            owners@.len() == n,
            passes <= MAX_LABEL_PROPAGATION_ITERATIONS,
            forall|j: int| 0 <= j < n ==> links_match(p, p[j].neighbors, (#[trigger] links@[j])@),
            forall|j: int|
                0 <= j < n ==> #[trigger] owners@[j] == owner(p, p[j].node_uuid) && owners@[j] < n,
            labels_in_range(int_labels(labels@), n as nat),
            labels@.len() == n,
            final_labels(p) == propagate(
                p,
                int_labels(labels@),
                (MAX_LABEL_PROPAGATION_ITERATIONS - passes) as nat,
            ),
            done ==> settled(p, int_labels(labels@)),
        decreases
                MAX_LABEL_PROPAGATION_ITERATIONS - passes + (if done {
                    0int
                } else {
                    1int
                }),
    {
        let ghost ls = int_labels(labels@);
        let mut next: Vec<usize> = Vec::new();
        let mut changed = false;
        let mut i: usize = 0;
        while i < n
            invariant
                i <= n,
                n == projection@.len(),
                p == projection_view(projection@),
                links@.len() == n,
                owners@.len() == n,
                labels@.len() == n,
                ls == int_labels(labels@),
                forall|j: int|
                    0 <= j < n ==> links_match(p, p[j].neighbors, (#[trigger] links@[j])@),
                forall|j: int|
                    0 <= j < n ==> #[trigger] owners@[j] == owner(p, p[j].node_uuid) && owners@[j]
                        < n,
                next@.len() == i,
                forall|j: int|
                    0 <= j < i ==> #[trigger] next@[j] == next_label(
                        p,
                        p[j].neighbors,
                        ls,
                        label_of(p, ls, j),
                    ),
                !changed <==> forall|j: int|
                    0 <= j < i ==> #[trigger] next@[j] == label_of(p, ls, j),
            decreases n - i,
        {
            let current = labels[owners[i]];
            assert(ls[owners@[i as int] as int] == current);
            assert(links_match(p, p[i as int].neighbors, links@[i as int]@));
            let label = choose_label(
                Ghost(p),
                Ghost(p[i as int].neighbors),
                &links[i],
                &labels,
                current,
            );
            let ghost before = next@;
            next.push(label);
            proof {
                assert forall|j: int| 0 <= j < i implies next@[j] == before[j] by {}
                assert(next@[i as int] == label);
            }
            if label != current {
                changed = true;
            }
            i += 1;
        }
        proof {
            assert(int_labels(next@) =~= next_labels(p, ls));
            lemma_next_in_range(p, ls);
            assert(!changed <==> settled(p, ls)) by {
                assert(forall|j: int|
                    0 <= j < p.len() ==> next_labels(p, ls)[j] == #[trigger] next@[j]);
                if !changed {
                    assert forall|j: int| 0 <= j < p.len() implies #[trigger] next_labels(p, ls)[j]
                        == label_of(p, ls, j) by {
                        assert(next@[j] == label_of(p, ls, j));
                    }
                }
                if settled(p, ls) {
                    assert forall|j: int| 0 <= j < n implies #[trigger] next@[j] == label_of(
                        p,
                        ls,
                        j,
                    ) by {
                        assert(next_labels(p, ls)[j] == label_of(p, ls, j));
                    }
                }
            }
        }
        if changed {
            labels = next;
            passes += 1;
        } else {
            done = true;
        }
    }
    assert(int_labels(labels@) == final_labels(p));
    collect_clusters(projection, &owners, &labels)
}

/// Groups the nodes by label.
fn collect_clusters(projection: &[NodeNeighbors], owners: &Vec<usize>, labels: &Vec<usize>) -> (r: Vec<
    Vec<String>,
>)
    requires
        owners@.len() == projection@.len(),
        labels@.len() == projection@.len(),
        forall|j: int|
            0 <= j < owners@.len() ==> #[trigger] owners@[j] == owner(
                projection_view(projection@),
                projection_view(projection@)[j].node_uuid,
            ) && owners@[j] < labels@.len(),
    ensures
        r@.map_values(|c: Vec<String>| text::views(c@)) == clusters_below(
            projection_view(projection@),
            int_labels(labels@),
            projection@.len(),
        ),
{
    let n = projection.len();
    let ghost p = projection_view(projection@);
    let ghost ls = int_labels(labels@);
    let mut out: Vec<Vec<String>> = Vec::new();
    let mut c: usize = 0;
    assert(out@.map_values(|c: Vec<String>| text::views(c@)) =~= clusters_below(p, ls, 0));
    while c < n
        invariant
            c <= n,
            n == projection@.len(),
            p == projection_view(projection@),
            ls == int_labels(labels@),
            owners@.len() == n,
            labels@.len() == n,
            forall|j: int|
                0 <= j < n ==> #[trigger] owners@[j] == owner(p, p[j].node_uuid) && owners@[j]
                    < n,
            out@.map_values(|c: Vec<String>| text::views(c@)) == clusters_below(p, ls, c as nat),
        decreases n - c,
    {
        let mut group: Vec<String> = Vec::new();
        let mut i: usize = 0;
        assert(text::views(group@) =~= members(p, ls, c as int, 0));
        while i < n
            invariant
                i <= n,
                n == projection@.len(),
                p == projection_view(projection@),
                ls == int_labels(labels@),
                owners@.len() == n,
                labels@.len() == n,
                forall|j: int|
                    0 <= j < n ==> #[trigger] owners@[j] == owner(p, p[j].node_uuid) && owners@[j]
                        < n,
                text::views(group@) == members(p, ls, c as int, i as nat),
            decreases n - i,
        {
            assert(ls[owners@[i as int] as int] == labels@[owners@[i as int] as int]);
            if labels[owners[i]] == c {
                let ghost before = group@;
                group.push(projection[i].node_uuid.clone());
                assert(text::views(group@) =~= text::views(before).push(p[i as int].node_uuid));
            }
            i += 1;
        }
        assert(text::views(group@).len() == group@.len());
        if group.len() > 0 {
            let ghost before = out@;
            let ghost g = text::views(group@);
            out.push(group);
            assert(out@.map_values(|c: Vec<String>| text::views(c@)) =~= before.map_values(
                |c: Vec<String>| text::views(c@),
            ).push(g));
        }
        c += 1;
    }
    out
}

/// The candidate is a label of a neighbour, with its weight, and no other label of a neighbour
/// is heavier, nor as heavy and greater. There is none exactly where no neighbour is listed.
pub proof fn law_candidate_is_heaviest(
    p: Seq<NodeNeighborsView>,
    neighbors: Seq<NeighborView>,
    labels: Seq<int>,
    k: nat,
)
    requires
        k <= neighbors.len(),
    ensures
        match best_candidate(p, neighbors, labels, k) {
            Some((w, c)) => {
                &&& w == weight(p, neighbors, labels, c)
                &&& exists|j: int|
                    0 <= j < k && owner(p, (#[trigger] neighbors[j]).node_uuid) >= 0 && labels[owner(
                        p,
                        neighbors[j].node_uuid,
                    )] == c
                &&& forall|j: int|
                    0 <= j < k && owner(p, (#[trigger] neighbors[j]).node_uuid) >= 0 ==> {
                        let d = labels[owner(p, neighbors[j].node_uuid)];
                        let v = weight(p, neighbors, labels, d);
                        v < w || (v == w && d <= c)
                    }
            },
            None => forall|j: int|
                0 <= j < k ==> owner(p, (#[trigger] neighbors[j]).node_uuid) < 0,
        },
    decreases k,
{
    if k > 0 {
        let m = (k - 1) as nat;
        law_candidate_is_heaviest(p, neighbors, labels, m);
        let o = owner(p, neighbors[k - 1].node_uuid);
        match best_candidate(p, neighbors, labels, k) {
            Some((w, c)) => {
                if best_candidate(p, neighbors, labels, k) != best_candidate(
                    p,
                    neighbors,
                    labels,
                    m,
                ) {
                    assert(o >= 0 && labels[o] == c);
                    assert(owner(p, neighbors[k - 1].node_uuid) >= 0);
                } else {
                    let j = choose|j: int|
                        0 <= j < m && owner(p, (#[trigger] neighbors[j]).node_uuid) >= 0
                            && labels[owner(p, neighbors[j].node_uuid)] == c;
                    assert(owner(p, neighbors[j].node_uuid) >= 0);
                }
            },
            None => {},
        }
    }
}

/// A node none of whose neighbours is listed keeps the label that it started with.
pub proof fn law_isolated_node_keeps_its_label(p: Seq<NodeNeighborsView>, i: int)
    requires
        0 <= i < p.len(),
        owner(p, p[i].node_uuid) == i,
        forall|k: int|
            0 <= k < p[i].neighbors.len() ==> owner(p, (#[trigger] p[i].neighbors[k]).node_uuid) < 0,
    ensures
        label_of(p, final_labels(p), i) == i,
{
    lemma_isolated(p, initial_labels(p.len()), i, MAX_LABEL_PROPAGATION_ITERATIONS as nat);
}

proof fn lemma_isolated(p: Seq<NodeNeighborsView>, labels: Seq<int>, i: int, passes: nat)
    requires
        0 <= i < p.len(),
        owner(p, p[i].node_uuid) == i,
        labels[i] == i,
        forall|k: int|
            0 <= k < p[i].neighbors.len() ==> owner(p, (#[trigger] p[i].neighbors[k]).node_uuid) < 0,
    ensures
        propagate(p, labels, passes)[i] == i,
    decreases passes,
{
    if passes > 0 && !settled(p, labels) {
        law_candidate_is_heaviest(p, p[i].neighbors, labels, p[i].neighbors.len());
        assert(next_labels(p, labels)[i] == i);
        lemma_isolated(p, next_labels(p, labels), i, (passes - 1) as nat);
    }
}

/// The number of nodes in all groups together.
pub open spec fn total_members(groups: Seq<Seq<Seq<char>>>) -> nat
    decreases groups.len(),
{
    if groups.len() == 0 {
        0
    } else {
        total_members(groups.drop_last()) + groups.last().len()
    }
}

/// The number of the first `k` nodes whose label is below `c`.
spec fn count_below(p: Seq<NodeNeighborsView>, labels: Seq<int>, c: int, k: nat) -> nat
    decreases k,
{
    if k == 0 {
        0
    } else {
        count_below(p, labels, c, (k - 1) as nat) + (if label_of(p, labels, k - 1) < c {
            1nat
        } else {
            0nat
        })
    }
}

proof fn lemma_count_step(p: Seq<NodeNeighborsView>, labels: Seq<int>, c: int, k: nat)
    ensures
        count_below(p, labels, c + 1, k) == count_below(p, labels, c, k) + members(
            p,
            labels,
            c,
            k,
        ).len(),
    decreases k,
{
    if k > 0 {
        lemma_count_step(p, labels, c, (k - 1) as nat);
    }
}

proof fn lemma_count_none(p: Seq<NodeNeighborsView>, labels: Seq<int>, k: nat)
    requires
        labels_in_range(labels, p.len()),
        k <= p.len(),
    ensures
        count_below(p, labels, 0, k) == 0,
        count_below(p, labels, p.len() as int, k) == k,
    decreases k,
{
    if k > 0 {
        lemma_owner_exists(p, k - 1);
        lemma_count_none(p, labels, (k - 1) as nat);
    }
}

proof fn lemma_total_below(p: Seq<NodeNeighborsView>, labels: Seq<int>, c: nat)
    requires
        labels_in_range(labels, p.len()),
    ensures
        total_members(clusters_below(p, labels, c)) == count_below(p, labels, c as int, p.len()),
    decreases c,
{
    if c == 0 {
        lemma_count_none(p, labels, p.len());
    } else {
        let d = (c - 1) as nat;
        lemma_total_below(p, labels, d);
        lemma_count_step(p, labels, d as int, p.len());
        let before = clusters_below(p, labels, d);
        let group = members(p, labels, d as int, p.len());
        if group.len() > 0 {
            assert(before.push(group).drop_last() =~= before);
        }
    }
}

proof fn lemma_members_contains(
    p: Seq<NodeNeighborsView>,
    labels: Seq<int>,
    c: int,
    k: nat,
    x: Seq<char>,
)
    requires
        k <= p.len(),
    ensures
        members(p, labels, c, k).contains(x) <==> exists|i: int|
            0 <= i < k && (#[trigger] p[i]).node_uuid == x && label_of(p, labels, i) == c,
    decreases k,
{
    if k > 0 {
        let m = (k - 1) as nat;
        lemma_members_contains(p, labels, c, m, x);
        let before = members(p, labels, c, m);
        let now = members(p, labels, c, k);
        if label_of(p, labels, k - 1) == c {
            assert(now == before.push(p[k - 1].node_uuid));
            if before.contains(x) {
                assert(now[before.index_of(x)] == x);
            }
            if p[k - 1].node_uuid == x {
                assert(now[now.len() - 1] == x);
            }
            if now.contains(x) && !before.contains(x) {
                let a = now.index_of(x);
                if a < before.len() {
                    assert(before[a] == x);
                }
                assert(p[k - 1].node_uuid == x);
            }
        }
    }
}

/// Holds where the a-th group below `c` is the group of some label, smaller for smaller `a`.
proof fn lemma_group_label(p: Seq<NodeNeighborsView>, labels: Seq<int>, c: nat, a: int) -> (d: int)
    requires
        0 <= a < clusters_below(p, labels, c).len(),
    ensures
        0 <= d < c,
        clusters_below(p, labels, c)[a] == members(p, labels, d, p.len()),
        clusters_below(p, labels, c)[a].len() > 0,
        a == clusters_below(p, labels, d as nat).len(),
    decreases c,
{
    let before = clusters_below(p, labels, (c - 1) as nat);
    if a < before.len() {
        lemma_group_label(p, labels, (c - 1) as nat, a)
    } else {
        c - 1
    }
}

proof fn lemma_label_group(p: Seq<NodeNeighborsView>, labels: Seq<int>, c: nat, d: int)
    requires
        0 <= d < c,
        members(p, labels, d, p.len()).len() > 0,
    ensures
        exists|a: int|
            0 <= a < clusters_below(p, labels, c).len() && #[trigger] clusters_below(
                p,
                labels,
                c,
            )[a] == members(p, labels, d, p.len()),
    decreases c,
{
    let before = clusters_below(p, labels, (c - 1) as nat);
    let now = clusters_below(p, labels, c);
    if d == c - 1 {
        assert(now[before.len() as int] == members(p, labels, d, p.len()));
    } else {
        lemma_label_group(p, labels, (c - 1) as nat, d);
        let a = choose|a: int|
            0 <= a < before.len() && #[trigger] before[a] == members(p, labels, d, p.len());
        assert(now[a] == before[a]);
    }
}

/// The communities partition the nodes: none is empty, every node is in one, no node is in
/// two of them, and together they have as many members as the projection lists nodes.
pub proof fn law_communities_partition_the_nodes(p: Seq<NodeNeighborsView>)
    ensures
        total_members(communities(p)) == p.len(),
        forall|a: int| 0 <= a < communities(p).len() ==> (#[trigger] communities(p)[a]).len() > 0,
        forall|i: int|
            0 <= i < p.len() ==> exists|a: int|
                0 <= a < communities(p).len() && (#[trigger] communities(p)[a]).contains(
                    (#[trigger] p[i]).node_uuid,
                ),
        forall|a: int, b: int, x: Seq<char>|
            0 <= a < communities(p).len() && 0 <= b < communities(p).len() && (
            #[trigger] communities(p)[a].contains(x)) && (#[trigger] communities(p)[b].contains(x))
                ==> a == b,
{
    let labels = final_labels(p);
    let n = p.len();
    assert(labels_in_range(initial_labels(n), n));
    lemma_propagate_in_range(p, initial_labels(n), MAX_LABEL_PROPAGATION_ITERATIONS as nat);
    lemma_total_below(p, labels, n);
    lemma_count_none(p, labels, n);
    assert forall|a: int| 0 <= a < communities(p).len() implies (#[trigger] communities(
        p,
    )[a]).len() > 0 by {
        lemma_group_label(p, labels, n, a);
    }
    assert forall|i: int| 0 <= i < p.len() implies exists|a: int|
        0 <= a < communities(p).len() && (#[trigger] communities(p)[a]).contains(
            (#[trigger] p[i]).node_uuid,
        ) by {
        lemma_owner_exists(p, i);
        let d = label_of(p, labels, i);
        lemma_members_contains(p, labels, d, n, p[i].node_uuid);
        assert(members(p, labels, d, n).contains(p[i].node_uuid));
        lemma_label_group(p, labels, n, d);
        let a = choose|a: int|
            0 <= a < clusters_below(p, labels, n).len() && #[trigger] clusters_below(
                p,
                labels,
                n,
            )[a] == members(p, labels, d, n);
        assert(communities(p)[a].contains(p[i].node_uuid));
    }
    assert forall|a: int, b: int, x: Seq<char>|
        0 <= a < communities(p).len() && 0 <= b < communities(p).len() && (#[trigger] communities(
            p,
        )[a].contains(x)) && (#[trigger] communities(p)[b].contains(x)) implies a == b by {
        let da = lemma_group_label(p, labels, n, a);
        let db = lemma_group_label(p, labels, n, b);
        lemma_members_contains(p, labels, da, n, x);
        lemma_members_contains(p, labels, db, n, x);
        let i = choose|i: int|
            0 <= i < n && (#[trigger] p[i]).node_uuid == x && label_of(p, labels, i) == da;
        let j = choose|j: int|
            0 <= j < n && (#[trigger] p[j]).node_uuid == x && label_of(p, labels, j) == db;
        assert(da == db);
    }
}

/// The pairs of `uuid` and each of the neighbours that the projection lists.
pub open spec fn links_of(
    p: Seq<NodeNeighborsView>,
    uuid: Seq<char>,
    neighbors: Seq<NeighborView>,
) -> Seq<Alias>
    decreases neighbors.len(),
{
    if neighbors.len() == 0 {
        Seq::empty()
    } else {
        let before = links_of(p, uuid, neighbors.drop_last());
        if owner(p, neighbors.last().node_uuid) >= 0 {
            before.push((uuid, neighbors.last().node_uuid))
        } else {
            before
        }
    }
}

/// The links of the first `k` nodes to nodes that the projection lists.
pub open spec fn links_below(p: Seq<NodeNeighborsView>, k: nat) -> Seq<Alias>
    decreases k,
{
    if k == 0 {
        Seq::empty()
    } else {
        links_below(p, (k - 1) as nat) + links_of(p, p[k - 1].node_uuid, p[k - 1].neighbors)
    }
}

/// The links between the nodes of a projection.
pub open spec fn all_links(p: Seq<NodeNeighborsView>) -> Seq<Alias> {
    links_below(p, p.len())
}

proof fn lemma_links_of(
    p: Seq<NodeNeighborsView>,
    uuid: Seq<char>,
    neighbors: Seq<NeighborView>,
    j: int,
)
    requires
        0 <= j < neighbors.len(),
        owner(p, neighbors[j].node_uuid) >= 0,
    ensures
        links_of(p, uuid, neighbors).contains((uuid, neighbors[j].node_uuid)),
    decreases neighbors.len(),
{
    let before = links_of(p, uuid, neighbors.drop_last());
    let now = links_of(p, uuid, neighbors);
    let link = (uuid, neighbors[j].node_uuid);
    if j == neighbors.len() - 1 {
        assert(now[now.len() - 1] == link);
    } else {
        lemma_links_of(p, uuid, neighbors.drop_last(), j);
        let a = choose|a: int| 0 <= a < before.len() && before[a] == link;
        assert(now[a] == link);
    }
}

proof fn lemma_links_below(p: Seq<NodeNeighborsView>, k: nat, i: int, j: int)
    requires
        0 <= i < k <= p.len(),
        0 <= j < p[i].neighbors.len(),
        owner(p, p[i].neighbors[j].node_uuid) >= 0,
    ensures
        links_below(p, k).contains((p[i].node_uuid, p[i].neighbors[j].node_uuid)),
    decreases k,
{
    let before = links_below(p, (k - 1) as nat);
    let last = links_of(p, p[k - 1].node_uuid, p[k - 1].neighbors);
    let link = (p[i].node_uuid, p[i].neighbors[j].node_uuid);
    if i == k - 1 {
        lemma_links_of(p, p[i].node_uuid, p[i].neighbors, j);
        let a = choose|a: int| 0 <= a < last.len() && last[a] == link;
        assert((before + last)[before.len() + a] == link);
    } else {
        lemma_links_below(p, (k - 1) as nat, i, j);
        let a = choose|a: int| 0 <= a < before.len() && before[a] == link;
        assert((before + last)[a] == link);
    }
}

/// Holds where the links connect every node to the node at the position of its label.
pub open spec fn labels_connected(p: Seq<NodeNeighborsView>, labels: Seq<int>) -> bool {
    forall|i: int|
        0 <= i < p.len() ==> uuid_map::connected(
            all_links(p),
            (#[trigger] p[i]).node_uuid,
            p[labels[i]].node_uuid,
        )
}

proof fn lemma_next_connected(p: Seq<NodeNeighborsView>, labels: Seq<int>)
    requires
        labels_in_range(labels, p.len()),
        labels_connected(p, labels),
    ensures
        labels_connected(p, next_labels(p, labels)),
{
    let links = all_links(p);
    assert forall|i: int| 0 <= i < p.len() implies uuid_map::connected(
        links,
        (#[trigger] p[i]).node_uuid,
        p[next_labels(p, labels)[i]].node_uuid,
    ) by {
        let x = p[i].node_uuid;
        let neighbors = p[i].neighbors;
        lemma_owner_exists(p, i);
        lemma_owner_range(p, x);
        assert(uuid_map::connected(
            links,
            p[owner(p, x)].node_uuid,
            p[labels[owner(p, x)]].node_uuid,
        ));
        law_candidate_is_heaviest(p, neighbors, labels, neighbors.len());
        match best_candidate(p, neighbors, labels, neighbors.len()) {
            Some((w, c)) => {
                let j = choose|j: int|
                    0 <= j < neighbors.len() && owner(p, (#[trigger] neighbors[j]).node_uuid) >= 0
                        && labels[owner(p, neighbors[j].node_uuid)] == c;
                let y = neighbors[j].node_uuid;
                lemma_owner_range(p, y);
                assert(uuid_map::connected(
                    links,
                    p[owner(p, y)].node_uuid,
                    p[labels[owner(p, y)]].node_uuid,
                ));
                lemma_links_below(p, p.len(), i, j);
                let a = choose|a: int| 0 <= a < links.len() && links[a] == (x, y);
                uuid_map::law_pairs_connect(links, a);
                uuid_map::law_connected_is_equivalence(links, x, y, p[c].node_uuid);
            },
            None => {},
        }
    }
}

proof fn lemma_propagate_connected(p: Seq<NodeNeighborsView>, labels: Seq<int>, passes: nat)
    requires
        labels_in_range(labels, p.len()),
        labels_connected(p, labels),
    ensures
        labels_connected(p, propagate(p, labels, passes)),
    decreases passes,
{
    if passes > 0 && !settled(p, labels) {
        lemma_next_in_range(p, labels);
        lemma_next_connected(p, labels);
        lemma_propagate_connected(p, next_labels(p, labels), (passes - 1) as nat);
    }
}

/// A community lies inside one connected component: the links connect any two of its members.
/// A node without a link is the only member of its community.
pub proof fn law_communities_are_connected(
    p: Seq<NodeNeighborsView>,
    a: int,
    x: Seq<char>,
    y: Seq<char>,
)
    requires
        0 <= a < communities(p).len(),
        communities(p)[a].contains(x),
        communities(p)[a].contains(y),
    ensures
        uuid_map::connected(all_links(p), x, y),
        !uuid_map::mentioned(all_links(p), x) ==> x == y,
{
    let n = p.len();
    let links = all_links(p);
    let start = initial_labels(n);
    let labels = final_labels(p);
    assert(labels_in_range(start, n));
    assert(labels_connected(p, start)) by {
        assert forall|i: int| 0 <= i < n implies uuid_map::connected(
            links,
            (#[trigger] p[i]).node_uuid,
            p[start[i]].node_uuid,
        ) by {
            let own = p[i].node_uuid;
            uuid_map::law_connected_is_equivalence(links, own, own, own);
        }
    }
    lemma_propagate_connected(p, start, MAX_LABEL_PROPAGATION_ITERATIONS as nat);
    let d = lemma_group_label(p, labels, n, a);
    lemma_member_connected(p, labels, d, x);
    lemma_member_connected(p, labels, d, y);
    let root = p[d].node_uuid;
    uuid_map::law_connected_is_equivalence(links, y, root, root);
    uuid_map::law_connected_is_equivalence(links, x, root, y);
    if !uuid_map::mentioned(links, x) {
        uuid_map::law_unmentioned_is_alone(links, x, y);
    }
}

proof fn lemma_member_connected(
    p: Seq<NodeNeighborsView>,
    labels: Seq<int>,
    d: int,
    x: Seq<char>,
)
    requires
        labels_connected(p, labels),
        members(p, labels, d, p.len()).contains(x),
    ensures
        uuid_map::connected(all_links(p), x, p[d].node_uuid),
{
    lemma_members_contains(p, labels, d, p.len(), x);
    let i = choose|i: int|
        0 <= i < p.len() && (#[trigger] p[i]).node_uuid == x && label_of(p, labels, i) == d;
    lemma_owner_exists(p, i);
    lemma_owner_range(p, x);
    assert(uuid_map::connected(
        all_links(p),
        p[owner(p, x)].node_uuid,
        p[labels[owner(p, x)]].node_uuid,
    ));
}

/// The neighbours that the projection lists as nodes.
pub open spec fn listed(p: Seq<NodeNeighborsView>, neighbors: Seq<NeighborView>) -> Seq<
    NeighborView,
>
    decreases neighbors.len(),
{
    if neighbors.len() == 0 {
        Seq::empty()
    } else {
        let before = listed(p, neighbors.drop_last());
        if owner(p, neighbors.last().node_uuid) >= 0 {
            before.push(neighbors.last())
        } else {
            before
        }
    }
}

/// The projection without the neighbours that it does not list as nodes.
pub open spec fn listed_only(p: Seq<NodeNeighborsView>) -> Seq<NodeNeighborsView> {
    Seq::new(
        p.len(),
        |i: int|
            NodeNeighborsView {
                node_uuid: p[i].node_uuid,
                neighbors: listed(p, p[i].neighbors),
            },
    )
}

/// Holds where two projections list the same nodes in the same order.
spec fn same_nodes(p: Seq<NodeNeighborsView>, q: Seq<NodeNeighborsView>) -> bool {
    &&& p.len() == q.len()
    &&& forall|i: int| 0 <= i < p.len() ==> (#[trigger] p[i]).node_uuid == q[i].node_uuid
}

proof fn lemma_same_owner(p: Seq<NodeNeighborsView>, q: Seq<NodeNeighborsView>, uuid: Seq<char>)
    requires
        same_nodes(p, q),
    ensures
        owner(p, uuid) == owner(q, uuid),
    decreases p.len(),
{
    if p.len() > 0 {
        assert(p[p.len() - 1].node_uuid == q[p.len() - 1].node_uuid);
        assert forall|i: int| 0 <= i < p.drop_last().len() implies (
        #[trigger] p.drop_last()[i]).node_uuid == q.drop_last()[i].node_uuid by {
            assert(p[i].node_uuid == q[i].node_uuid);
        }
        lemma_same_owner(p.drop_last(), q.drop_last(), uuid);
    }
}

proof fn lemma_same_weight(
    p: Seq<NodeNeighborsView>,
    q: Seq<NodeNeighborsView>,
    neighbors: Seq<NeighborView>,
    labels: Seq<int>,
    c: int,
)
    requires
        same_nodes(p, q),
    ensures
        weight(q, listed(p, neighbors), labels, c) == weight(p, neighbors, labels, c),
    decreases neighbors.len(),
{
    if neighbors.len() > 0 {
        let last = neighbors.last();
        let before = listed(p, neighbors.drop_last());
        lemma_same_weight(p, q, neighbors.drop_last(), labels, c);
        lemma_same_owner(p, q, last.node_uuid);
        if owner(p, last.node_uuid) >= 0 {
            assert(before.push(last).drop_last() =~= before);
        }
    }
}

proof fn lemma_listed_prefix(
    p: Seq<NodeNeighborsView>,
    neighbors: Seq<NeighborView>,
    k: nat,
)
    requires
        k <= neighbors.len(),
    ensures
        listed(p, neighbors.take(k as int)).len() <= listed(p, neighbors).len(),
        listed(p, neighbors.take(k as int)) == listed(p, neighbors).take(
            listed(p, neighbors.take(k as int)).len() as int,
        ),
    decreases neighbors.len(),
{
    let prefix = listed(p, neighbors.take(k as int));
    if k == neighbors.len() {
        assert(neighbors.take(k as int) =~= neighbors);
        assert(prefix =~= listed(p, neighbors).take(prefix.len() as int));
    } else {
        let init = neighbors.drop_last();
        lemma_listed_prefix(p, init, k);
        assert(init.take(k as int) =~= neighbors.take(k as int));
        assert(prefix =~= listed(p, neighbors).take(prefix.len() as int));
    }
}

proof fn lemma_same_candidate(
    p: Seq<NodeNeighborsView>,
    q: Seq<NodeNeighborsView>,
    neighbors: Seq<NeighborView>,
    labels: Seq<int>,
    k: nat,
)
    requires
        same_nodes(p, q),
        k <= neighbors.len(),
    ensures
        best_candidate(
            q,
            listed(p, neighbors),
            labels,
            listed(p, neighbors.take(k as int)).len(),
        ) == best_candidate(p, neighbors, labels, k),
    decreases k,
{
    if k > 0 {
        let m = (k - 1) as nat;
        let last = neighbors[k - 1];
        let upto = neighbors.take(k as int);
        let short = listed(p, upto);
        lemma_same_candidate(p, q, neighbors, labels, m);
        assert(upto.drop_last() =~= neighbors.take(m as int));
        assert(upto.last() == last);
        lemma_same_owner(p, q, last.node_uuid);
        if owner(p, last.node_uuid) >= 0 {
            lemma_listed_prefix(p, neighbors, k);
            assert(short[short.len() - 1] == last);
            assert(listed(p, neighbors)[short.len() - 1] == last);
            lemma_same_weight(
                p,
                q,
                neighbors,
                labels,
                labels[owner(p, last.node_uuid)],
            );
        }
    }
}

proof fn lemma_same_labels(p: Seq<NodeNeighborsView>, labels: Seq<int>, passes: nat)
    ensures
        propagate(listed_only(p), labels, passes) == propagate(p, labels, passes),
    decreases passes,
{
    let q = listed_only(p);
    assert(same_nodes(p, q));
    assert forall|i: int| 0 <= i < p.len() implies label_of(q, labels, i) == label_of(p, labels, i)
        && #[trigger] next_labels(q, labels)[i] == next_labels(p, labels)[i] by {
        let neighbors = p[i].neighbors;
        lemma_same_owner(p, q, p[i].node_uuid);
        lemma_same_candidate(p, q, neighbors, labels, neighbors.len());
        assert(neighbors.take(neighbors.len() as int) =~= neighbors);
    }
    assert(next_labels(q, labels) =~= next_labels(p, labels));
    assert(settled(q, labels) == settled(p, labels)) by {
        if settled(p, labels) {
            assert forall|i: int| 0 <= i < q.len() implies #[trigger] next_labels(q, labels)[i]
                == label_of(q, labels, i) by {
                assert(next_labels(p, labels)[i] == label_of(p, labels, i));
            }
        }
        if settled(q, labels) {
            assert forall|i: int| 0 <= i < p.len() implies #[trigger] next_labels(p, labels)[i]
                == label_of(p, labels, i) by {
                assert(next_labels(q, labels)[i] == label_of(q, labels, i));
            }
        }
    }
    if passes > 0 && !settled(p, labels) {
        lemma_same_labels(p, next_labels(p, labels), (passes - 1) as nat);
    }
}

proof fn lemma_same_members(
    p: Seq<NodeNeighborsView>,
    q: Seq<NodeNeighborsView>,
    labels: Seq<int>,
    c: int,
    k: nat,
)
    requires
        same_nodes(p, q),
        k <= p.len(),
    ensures
        members(q, labels, c, k) == members(p, labels, c, k),
    decreases k,
{
    if k > 0 {
        lemma_same_members(p, q, labels, c, (k - 1) as nat);
        assert(p[k - 1].node_uuid == q[k - 1].node_uuid);
        lemma_same_owner(p, q, p[k - 1].node_uuid);
    }
}

proof fn lemma_same_clusters(
    p: Seq<NodeNeighborsView>,
    q: Seq<NodeNeighborsView>,
    labels: Seq<int>,
    c: nat,
)
    requires
        same_nodes(p, q),
    ensures
        clusters_below(q, labels, c) == clusters_below(p, labels, c),
    decreases c,
{
    if c > 0 {
        lemma_same_clusters(p, q, labels, (c - 1) as nat);
        lemma_same_members(p, q, labels, c - 1, p.len());
    }
}

/// Neighbours that the projection does not list as nodes change nothing: without them the
/// communities are the same, and so are those of two projections that differ only in them.
pub proof fn law_absent_neighbors_change_nothing(
    p: Seq<NodeNeighborsView>,
    q: Seq<NodeNeighborsView>,
)
    ensures
        communities(listed_only(p)) == communities(p),
        listed_only(p) == listed_only(q) ==> communities(p) == communities(q),
{
    lemma_listed_communities(p);
    lemma_listed_communities(q);
}

proof fn lemma_listed_communities(p: Seq<NodeNeighborsView>)
    ensures
        communities(listed_only(p)) == communities(p),
{
    assert(same_nodes(p, listed_only(p)));
    lemma_same_labels(p, initial_labels(p.len()), MAX_LABEL_PROPAGATION_ITERATIONS as nat);
    lemma_same_clusters(p, listed_only(p), final_labels(p), p.len());
}

} // verus!
