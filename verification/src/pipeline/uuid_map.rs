//! Canonical identifiers: maps from every identifier of a set of duplicates to
//! the one that stands for all of them.
use crate::collections::StringMap;
use crate::text::{self, str_eq, str_less};
use vstd::prelude::*;

verus! {

/// A pair of identifiers that were found to name the same thing.
pub type Alias = (Seq<char>, Seq<char>);

/// The views of a sequence of identifier pairs.
pub open spec fn aliases(pairs: Seq<(String, String)>) -> Seq<Alias> {
    pairs.map_values(|p: (String, String)| (p.0@, p.1@))
}

/// A map of strings by the views of its values.
pub open spec fn text_map(m: Map<Seq<char>, String>) -> Map<Seq<char>, Seq<char>> {
    Map::new(|k: Seq<char>| m.dom().contains(k), |k: Seq<char>| m[k]@)
}

/// `m`, with `x` standing for itself where it was unknown.
pub open spec fn with_self(m: Map<Seq<char>, Seq<char>>, x: Seq<char>) -> Map<
    Seq<char>,
    Seq<char>,
> {
    if m.dom().contains(x) {
        m
    } else {
        m.insert(x, x)
    }
}

/// `m`, with `to` in the place of the values `from`.
pub open spec fn relabel(m: Map<Seq<char>, Seq<char>>, from: Seq<char>, to: Seq<char>) -> Map<
    Seq<char>,
    Seq<char>,
> {
    Map::new(
        |k: Seq<char>| m.dom().contains(k),
        |k: Seq<char>|
            if m[k] == from {
                to
            } else {
                m[k]
            },
    )
}

/// The map once the alias `p` is known too: whatever stood for the source is replaced by
/// what stands for the target.
pub open spec fn merge_directed(m: Map<Seq<char>, Seq<char>>, p: Alias) -> Map<
    Seq<char>,
    Seq<char>,
> {
    let known = with_self(with_self(m, p.0), p.1);
    relabel(known, known[p.0], known[p.1])
}

/// The map once the alias `p` is known too: the smaller of the two identifiers that stood
/// for its sides stands for both.
pub open spec fn merge_smallest(m: Map<Seq<char>, Seq<char>>, p: Alias) -> Map<
    Seq<char>,
    Seq<char>,
> {
    let known = with_self(with_self(m, p.0), p.1);
    if text::str_lt(known[p.0], known[p.1]) {
        relabel(known, known[p.1], known[p.0])
    } else {
        relabel(known, known[p.0], known[p.1])
    }
}

/// What stands for each identifier where every alias points from a source to a target.
pub open spec fn directed_roots(pairs: Seq<Alias>) -> Map<Seq<char>, Seq<char>>
    decreases pairs.len(),
{
    if pairs.len() == 0 {
        Map::empty()
    } else {
        merge_directed(directed_roots(pairs.drop_last()), pairs.last())
    }
}

/// What stands for each identifier where the smallest of a set of aliases does.
pub open spec fn smallest_roots(pairs: Seq<Alias>) -> Map<Seq<char>, Seq<char>>
    decreases pairs.len(),
{
    if pairs.len() == 0 {
        Map::empty()
    } else {
        merge_smallest(smallest_roots(pairs.drop_last()), pairs.last())
    }
}

/// Holds where `x` occurs in one of the pairs.
pub open spec fn mentioned(pairs: Seq<Alias>, x: Seq<char>) -> bool {
    exists|i: int| 0 <= i < pairs.len() && ((#[trigger] pairs[i]).0 == x || pairs[i].1 == x)
}

/// Holds where the pairs connect `x` to `y` in `steps` steps, whichever way each pair points.
pub open spec fn connected_in(pairs: Seq<Alias>, x: Seq<char>, y: Seq<char>, steps: nat) -> bool
    decreases steps,
{
    if steps == 0 {
        x == y
    } else {
        exists|i: int|
            0 <= i < pairs.len() && {
                ||| #[trigger] pairs[i].0 == x && connected_in(
                    pairs,
                    pairs[i].1,
                    y,
                    (steps - 1) as nat,
                )
                ||| pairs[i].1 == x && connected_in(pairs, pairs[i].0, y, (steps - 1) as nat)
            }
    }
}

/// Holds where the pairs connect `x` to `y`.
pub open spec fn connected(pairs: Seq<Alias>, x: Seq<char>, y: Seq<char>) -> bool {
    exists|steps: nat| connected_in(pairs, x, y, steps)
}

/// Records that `x` stands for itself where it was unknown.
fn ensure_known(m: &mut StringMap<String>, x: &String)
    ensures
        text_map(final(m)@) == with_self(text_map(old(m)@), x@),
        final(m)@.dom() == old(m)@.dom().insert(x@),
{
    if !m.contains_key(x.as_str()) {
        m.insert(x.clone(), x.clone());
    }
    assert(text_map(m@) =~= with_self(text_map(old(m)@), x@));
    assert(m@.dom() =~= old(m)@.dom().insert(x@));
}

/// A copy of `m` with `to` in the place of the values `from`.
fn relabelled(m: &StringMap<String>, from: &String, to: &String) -> (r: StringMap<String>)
    ensures
        text_map(r@) == relabel(text_map(m@), from@, to@),
{
    let mut out: StringMap<String> = StringMap::new();
    let n = m.len();
    let mut i: usize = 0;
    let ghost goal = relabel(text_map(m@), from@, to@);
    while i < n
        invariant
            i <= n,
            n == m.keys().len(),
            goal == relabel(text_map(m@), from@, to@),
            m@ == crate::collections::zip_map(m.keys(), m.values()),
            forall|k: Seq<char>| #[trigger]
                out@.dom().contains(k) <==> m.keys().take(i as int).contains(k),
            forall|k: Seq<char>| #[trigger] out@.dom().contains(k) ==> out@[k]@ == goal[k],
        decreases n - i,
    {
        let key = m.key_at(i);
        let value = m.value_at(i);
        let ghost before = out@;
        if str_eq(value.as_str(), from.as_str()) {
            out.insert(key.clone(), to.clone());
        } else {
            out.insert(key.clone(), value.clone());
        }
        proof {
            let next = m.keys().take(i as int + 1);
            assert forall|k: Seq<char>| #[trigger] out@.dom().contains(k) <==> next.contains(k) by {
                if before.dom().contains(k) {
                    assert(next[m.keys().take(i as int).index_of(k)] == k);
                }
                if k == key@ {
                    assert(next[i as int] == k);
                }
                if next.contains(k) && k != key@ {
                    let j = next.index_of(k);
                    assert(m.keys().take(i as int)[j] == k);
                    assert(m.keys().take(i as int).contains(k));
                }
            }
        }
        i += 1;
    }
    proof {
        assert(m.keys().take(n as int) =~= m.keys());
        assert(text_map(out@) =~= goal);
    }
    out
}

/// Collapses chains of aliases while keeping their direction: every source resolves to
/// what its target resolves to in the end, also where the source is the smaller identifier.
pub fn build_directed_uuid_map(pairs: &[(String, String)]) -> (r: StringMap<String>)
    ensures
        text_map(r@) == directed_roots(aliases(pairs@)),
{
    let mut roots: StringMap<String> = StringMap::new();
    let mut i: usize = 0;
    let ghost all = aliases(pairs@);
    assert(text_map(roots@) =~= Map::<Seq<char>, Seq<char>>::empty());
    while i < pairs.len()
        invariant
            i <= pairs.len(),
            all == aliases(pairs@),
            text_map(roots@) == directed_roots(all.take(i as int)),
        decreases pairs.len() - i,
    {
        proof {
            assert(all.take(i as int + 1).drop_last() =~= all.take(i as int));
            assert(all.take(i as int + 1).last() == all[i as int]);
        }
        let source = &pairs[i].0;
        let target = &pairs[i].1;
        ensure_known(&mut roots, source);
        ensure_known(&mut roots, target);
        match (roots.get(source.as_str()), roots.get(target.as_str())) {
            (Some(rs), Some(rt)) => {
                let next = relabelled(&roots, rs, rt);
                roots = next;
            },
            _ => {
                assert(false);
            },
        }
        i += 1;
    }
    assert(all.take(all.len() as int) =~= all);
    roots
}

/// Collapses every identifier to the smallest one among its duplicates, whichever way the
/// pairs point.
pub fn compress_uuid_map(pairs: &[(String, String)]) -> (r: StringMap<String>)
    ensures
        text_map(r@) == smallest_roots(aliases(pairs@)),
{
    let mut roots: StringMap<String> = StringMap::new();
    let mut i: usize = 0;
    let ghost all = aliases(pairs@);
    assert(text_map(roots@) =~= Map::<Seq<char>, Seq<char>>::empty());
    while i < pairs.len()
        invariant
            i <= pairs.len(),
            all == aliases(pairs@),
            text_map(roots@) == smallest_roots(all.take(i as int)),
        decreases pairs.len() - i,
    {
        proof {
            assert(all.take(i as int + 1).drop_last() =~= all.take(i as int));
            assert(all.take(i as int + 1).last() == all[i as int]);
        }
        let a = &pairs[i].0;
        let b = &pairs[i].1;
        ensure_known(&mut roots, a);
        ensure_known(&mut roots, b);
        match (roots.get(a.as_str()), roots.get(b.as_str())) {
            (Some(ra), Some(rb)) => {
                let next = if str_less(ra.as_str(), rb.as_str()) {
                    relabelled(&roots, rb, ra)
                } else {
                    relabelled(&roots, ra, rb)
                };
                roots = next;
            },
            _ => {
                assert(false);
            },
        }
        i += 1;
    }
    assert(all.take(all.len() as int) =~= all);
    roots
}

proof fn lemma_step(pairs: Seq<Alias>, i: int)
    requires
        0 <= i < pairs.len(),
    ensures
        connected_in(pairs, pairs[i].0, pairs[i].1, 1),
        connected_in(pairs, pairs[i].1, pairs[i].0, 1),
{
    assert(connected_in(pairs, pairs[i].1, pairs[i].1, 0));
    assert(connected_in(pairs, pairs[i].0, pairs[i].0, 0));
    reveal_with_fuel(connected_in, 2);
}

proof fn lemma_connected_in_transitive(
    pairs: Seq<Alias>,
    x: Seq<char>,
    y: Seq<char>,
    z: Seq<char>,
    a: nat,
    b: nat,
)
    requires
        connected_in(pairs, x, y, a),
        connected_in(pairs, y, z, b),
    ensures
        connected_in(pairs, x, z, a + b),
    decreases a,
{
    if a > 0 {
        let i = choose|i: int|
            0 <= i < pairs.len() && {
                ||| #[trigger] pairs[i].0 == x && connected_in(
                    pairs,
                    pairs[i].1,
                    y,
                    (a - 1) as nat,
                )
                ||| pairs[i].1 == x && connected_in(pairs, pairs[i].0, y, (a - 1) as nat)
            };
        let rest = (a - 1) as nat;
        assert((a + b - 1) as nat == rest + b);
        if pairs[i].0 == x && connected_in(pairs, pairs[i].1, y, rest) {
            lemma_connected_in_transitive(pairs, pairs[i].1, y, z, rest, b);
        } else {
            lemma_connected_in_transitive(pairs, pairs[i].0, y, z, rest, b);
        }
    }
}

proof fn lemma_connected_in_symmetric(pairs: Seq<Alias>, x: Seq<char>, y: Seq<char>, n: nat)
    requires
        connected_in(pairs, x, y, n),
    ensures
        connected_in(pairs, y, x, n),
    decreases n,
{
    if n > 0 {
        let i = choose|i: int|
            0 <= i < pairs.len() && {
                ||| #[trigger] pairs[i].0 == x && connected_in(
                    pairs,
                    pairs[i].1,
                    y,
                    (n - 1) as nat,
                )
                ||| pairs[i].1 == x && connected_in(pairs, pairs[i].0, y, (n - 1) as nat)
            };
        let rest = (n - 1) as nat;
        lemma_step(pairs, i);
        if pairs[i].0 == x && connected_in(pairs, pairs[i].1, y, rest) {
            lemma_connected_in_symmetric(pairs, pairs[i].1, y, rest);
            lemma_connected_in_transitive(pairs, y, pairs[i].1, x, rest, 1);
        } else {
            lemma_connected_in_symmetric(pairs, pairs[i].0, y, rest);
            lemma_connected_in_transitive(pairs, y, pairs[i].0, x, rest, 1);
        }
    }
}

proof fn lemma_connected_in_extends(
    fewer: Seq<Alias>,
    more: Seq<Alias>,
    x: Seq<char>,
    y: Seq<char>,
    n: nat,
)
    requires
        connected_in(fewer, x, y, n),
        forall|i: int|
            0 <= i < fewer.len() ==> more.contains(#[trigger] fewer[i]) || more.contains(
                (fewer[i].1, fewer[i].0),
            ),
    ensures
        connected_in(more, x, y, n),
    decreases n,
{
    if n > 0 {
        let i = choose|i: int|
            0 <= i < fewer.len() && {
                ||| #[trigger] fewer[i].0 == x && connected_in(
                    fewer,
                    fewer[i].1,
                    y,
                    (n - 1) as nat,
                )
                ||| fewer[i].1 == x && connected_in(fewer, fewer[i].0, y, (n - 1) as nat)
            };
        let rest = (n - 1) as nat;
        let same = more.contains(fewer[i]);
        let j = if same {
            more.index_of(fewer[i])
        } else {
            more.index_of((fewer[i].1, fewer[i].0))
        };
        if fewer[i].0 == x && connected_in(fewer, fewer[i].1, y, rest) {
            lemma_connected_in_extends(fewer, more, fewer[i].1, y, rest);
        } else {
            lemma_connected_in_extends(fewer, more, fewer[i].0, y, rest);
        }
        assert(more[j].0 == x || more[j].1 == x);
    }
}

/// Being connected is an equivalence relation.
pub proof fn law_connected_is_equivalence(
    pairs: Seq<Alias>,
    x: Seq<char>,
    y: Seq<char>,
    z: Seq<char>,
)
    ensures
        connected(pairs, x, x),
        connected(pairs, x, y) ==> connected(pairs, y, x),
        connected(pairs, x, y) && connected(pairs, y, z) ==> connected(pairs, x, z),
{
    assert(connected_in(pairs, x, x, 0));
    if connected(pairs, x, y) {
        let a = choose|a: nat| connected_in(pairs, x, y, a);
        lemma_connected_in_symmetric(pairs, x, y, a);
        if connected(pairs, y, z) {
            let b = choose|b: nat| connected_in(pairs, y, z, b);
            lemma_connected_in_transitive(pairs, x, y, z, a, b);
        }
    }
}

/// Every pair connects its two sides.
pub proof fn law_pairs_connect(pairs: Seq<Alias>, i: int)
    requires
        0 <= i < pairs.len(),
    ensures
        connected(pairs, pairs[i].0, pairs[i].1),
{
    lemma_step(pairs, i);
}

/// What no pair mentions is connected to itself only.
pub proof fn law_unmentioned_is_alone(pairs: Seq<Alias>, x: Seq<char>, y: Seq<char>)
    requires
        !mentioned(pairs, x),
        connected(pairs, x, y),
    ensures
        x == y,
{
    let n = choose|n: nat| connected_in(pairs, x, y, n);
    if n > 0 {
        let i = choose|i: int|
            0 <= i < pairs.len() && ((#[trigger] pairs[i]).0 == x || pairs[i].1 == x);
        assert(mentioned(pairs, x));
    }
}

proof fn lemma_connected_extends(
    fewer: Seq<Alias>,
    more: Seq<Alias>,
    x: Seq<char>,
    y: Seq<char>,
)
    requires
        connected(fewer, x, y),
        forall|i: int|
            0 <= i < fewer.len() ==> more.contains(#[trigger] fewer[i]) || more.contains(
                (fewer[i].1, fewer[i].0),
            ),
    ensures
        connected(more, x, y),
{
    let n = choose|n: nat| connected_in(fewer, x, y, n);
    lemma_connected_in_extends(fewer, more, x, y, n);
}

/// Holds where `m` sends every mentioned identifier, and no other, to a member of its set of
/// duplicates that stands for itself, the same for the whole set.
pub open spec fn represents(m: Map<Seq<char>, Seq<char>>, pairs: Seq<Alias>) -> bool {
    &&& forall|x: Seq<char>| #[trigger] m.dom().contains(x) <==> mentioned(pairs, x)
    &&& forall|x: Seq<char>| #[trigger]
        m.dom().contains(x) ==> m.dom().contains(m[x]) && m[m[x]] == m[x] && connected(
            pairs,
            x,
            m[x],
        )
    &&& forall|i: int| 0 <= i < pairs.len() ==> m[(#[trigger] pairs[i]).0] == m[pairs[i].1]
}

proof fn lemma_merge_represents(
    m: Map<Seq<char>, Seq<char>>,
    pairs: Seq<Alias>,
    p: Alias,
    forward: bool,
)
    requires
        represents(m, pairs),
    ensures
        ({
            let known = with_self(with_self(m, p.0), p.1);
            let from = if forward {
                known[p.0]
            } else {
                known[p.1]
            };
            let to = if forward {
                known[p.1]
            } else {
                known[p.0]
            };
            represents(relabel(known, from, to), pairs.push(p))
        }),
{
    let more = pairs.push(p);
    let known = with_self(with_self(m, p.0), p.1);
    let from = if forward {
        known[p.0]
    } else {
        known[p.1]
    };
    let to = if forward {
        known[p.1]
    } else {
        known[p.0]
    };
    let out = relabel(known, from, to);
    assert(more[pairs.len() as int] == p);
    assert forall|i: int| 0 <= i < pairs.len() implies more.contains(#[trigger] pairs[i]) by {
        assert(more[i] == pairs[i]);
    }
    lemma_step(more, pairs.len() as int);
    assert(connected(more, p.0, p.1));
    assert(connected(more, p.1, p.0));
    assert forall|x: Seq<char>| #[trigger] out.dom().contains(x) <==> mentioned(more, x) by {
        if mentioned(pairs, x) {
            let i = choose|i: int|
                0 <= i < pairs.len() && ((#[trigger] pairs[i]).0 == x || pairs[i].1 == x);
            assert(more[i] == pairs[i]);
        }
        if mentioned(more, x) {
            let i = choose|i: int|
                0 <= i < more.len() && ((#[trigger] more[i]).0 == x || more[i].1 == x);
            if i < pairs.len() {
                assert(more[i] == pairs[i]);
                assert(mentioned(pairs, x));
            }
        }
    }
    // facts about `known`
    assert forall|x: Seq<char>| #[trigger] known.dom().contains(x) implies known.dom().contains(
        known[x],
    ) && known[known[x]] == known[x] && connected(more, x, known[x]) by {
        law_connected_is_equivalence(more, x, x, x);
        if m.dom().contains(x) {
            lemma_connected_extends(pairs, more, x, m[x]);
        }
    }
    assert forall|i: int| 0 <= i < pairs.len() implies known[(#[trigger] pairs[i]).0]
        == known[pairs[i].1] by {
        assert(mentioned(pairs, pairs[i].0));
        assert(mentioned(pairs, pairs[i].1));
        assert(m.dom().contains(pairs[i].0));
        assert(m.dom().contains(pairs[i].1));
    }
    assert(connected(more, from, to)) by {
        assert(known.dom().contains(p.0) && known.dom().contains(p.1));
        law_connected_is_equivalence(more, p.0, known[p.0], known[p.0]);
        law_connected_is_equivalence(more, known[p.0], p.0, p.1);
        law_connected_is_equivalence(more, known[p.0], p.1, known[p.1]);
        law_connected_is_equivalence(more, known[p.0], known[p.1], p.0);
    }
    assert forall|x: Seq<char>| #[trigger] out.dom().contains(x) implies out.dom().contains(out[x])
        && out[out[x]] == out[x] && connected(more, x, out[x]) by {
        assert(known.dom().contains(x));
        law_connected_is_equivalence(more, x, known[x], to);
    }
    assert forall|i: int| 0 <= i < more.len() implies out[(#[trigger] more[i]).0] == out[more[i].1] by {
        if i < pairs.len() {
            assert(more[i] == pairs[i]);
            assert(mentioned(pairs, pairs[i].0));
            assert(mentioned(pairs, pairs[i].1));
        }
    }
}

proof fn lemma_directed_represents(pairs: Seq<Alias>)
    ensures
        represents(directed_roots(pairs), pairs),
    decreases pairs.len(),
{
    if pairs.len() > 0 {
        lemma_directed_represents(pairs.drop_last());
        lemma_merge_represents(
            directed_roots(pairs.drop_last()),
            pairs.drop_last(),
            pairs.last(),
            true,
        );
        assert(pairs.drop_last().push(pairs.last()) =~= pairs);
    }
}

proof fn lemma_smallest_represents(pairs: Seq<Alias>)
    ensures
        represents(smallest_roots(pairs), pairs),
        forall|x: Seq<char>| #[trigger]
            smallest_roots(pairs).dom().contains(x) ==> !text::str_lt(x, smallest_roots(pairs)[x]),
    decreases pairs.len(),
{
    if pairs.len() > 0 {
        let fewer = pairs.drop_last();
        let p = pairs.last();
        let m = smallest_roots(fewer);
        lemma_smallest_represents(fewer);
        let known = with_self(with_self(m, p.0), p.1);
        let forward = !text::str_lt(known[p.0], known[p.1]);
        lemma_merge_represents(m, fewer, p, forward);
        assert(fewer.push(p) =~= pairs);
        let out = smallest_roots(pairs);
        assert forall|x: Seq<char>| #[trigger] out.dom().contains(x) implies !text::str_lt(x, out[x]) by {
            text::lemma_str_lt_irreflexive(x);
            assert(known.dom().contains(x));
            assert(!text::str_lt(x, known[x]));
            text::lemma_str_lt_total(known[p.0], known[p.1]);
            if out[x] != known[x] && text::str_lt(x, out[x]) {
                assert(text::str_lt(out[x], known[x]));
                text::lemma_str_lt_transitive(x, out[x], known[x]);
            }
        }
    }
}

/// The directed map knows exactly the identifiers of the pairs, sends each of them to a
/// duplicate of it that stands for itself, and sends two of them to the same identifier
/// exactly where the pairs connect them.
pub proof fn law_directed_map_joins_duplicates(pairs: Seq<Alias>, x: Seq<char>, y: Seq<char>)
    requires
        mentioned(pairs, x),
        mentioned(pairs, y),
    ensures
        represents(directed_roots(pairs), pairs),
        directed_roots(pairs)[x] == directed_roots(pairs)[y] <==> connected(pairs, x, y),
{
    lemma_directed_represents(pairs);
    lemma_same_root_iff_connected(directed_roots(pairs), pairs, x, y);
}

/// The same of the undirected map.
pub proof fn law_compressed_map_joins_duplicates(pairs: Seq<Alias>, x: Seq<char>, y: Seq<char>)
    requires
        mentioned(pairs, x),
        mentioned(pairs, y),
    ensures
        represents(smallest_roots(pairs), pairs),
        smallest_roots(pairs)[x] == smallest_roots(pairs)[y] <==> connected(pairs, x, y),
{
    lemma_smallest_represents(pairs);
    lemma_same_root_iff_connected(smallest_roots(pairs), pairs, x, y);
}

proof fn lemma_same_root_iff_connected(
    m: Map<Seq<char>, Seq<char>>,
    pairs: Seq<Alias>,
    x: Seq<char>,
    y: Seq<char>,
)
    requires
        represents(m, pairs),
        mentioned(pairs, x),
        mentioned(pairs, y),
    ensures
        m[x] == m[y] <==> connected(pairs, x, y),
{
    assert(m.dom().contains(x) && m.dom().contains(y));
    if m[x] == m[y] {
        law_connected_is_equivalence(pairs, y, m[y], x);
        law_connected_is_equivalence(pairs, x, m[x], y);
    }
    if connected(pairs, x, y) {
        let n = choose|n: nat| connected_in(pairs, x, y, n);
        lemma_connected_same_root(m, pairs, x, y, n);
    }
}

proof fn lemma_connected_same_root(
    m: Map<Seq<char>, Seq<char>>,
    pairs: Seq<Alias>,
    x: Seq<char>,
    y: Seq<char>,
    n: nat,
)
    requires
        represents(m, pairs),
        connected_in(pairs, x, y, n),
    ensures
        m[x] == m[y],
    decreases n,
{
    if n > 0 {
        let i = choose|i: int|
            0 <= i < pairs.len() && {
                ||| #[trigger] pairs[i].0 == x && connected_in(
                    pairs,
                    pairs[i].1,
                    y,
                    (n - 1) as nat,
                )
                ||| pairs[i].1 == x && connected_in(pairs, pairs[i].0, y, (n - 1) as nat)
            };
        if pairs[i].0 == x && connected_in(pairs, pairs[i].1, y, (n - 1) as nat) {
            lemma_connected_same_root(m, pairs, pairs[i].1, y, (n - 1) as nat);
        } else {
            lemma_connected_same_root(m, pairs, pairs[i].0, y, (n - 1) as nat);
        }
    }
}

/// The undirected map sends every identifier to the smallest one that the pairs connect it to.
pub proof fn law_compressed_map_picks_smallest(pairs: Seq<Alias>, x: Seq<char>, y: Seq<char>)
    requires
        mentioned(pairs, x),
        mentioned(pairs, y),
        connected(pairs, x, y),
    ensures
        connected(pairs, x, smallest_roots(pairs)[x]),
        !text::str_lt(y, smallest_roots(pairs)[x]),
{
    lemma_smallest_represents(pairs);
    lemma_same_root_iff_connected(smallest_roots(pairs), pairs, x, y);
    assert(smallest_roots(pairs).dom().contains(x));
    assert(smallest_roots(pairs).dom().contains(y));
}

/// The undirected map depends neither on the order of the pairs nor on which way each of
/// them points.
pub proof fn law_compressed_map_ignores_order_and_direction(a: Seq<Alias>, b: Seq<Alias>)
    requires
        forall|i: int|
            0 <= i < a.len() ==> b.contains(#[trigger] a[i]) || b.contains((a[i].1, a[i].0)),
        forall|i: int|
            0 <= i < b.len() ==> a.contains(#[trigger] b[i]) || a.contains((b[i].1, b[i].0)),
    ensures
        smallest_roots(a) == smallest_roots(b),
{
    let ma = smallest_roots(a);
    let mb = smallest_roots(b);
    lemma_smallest_represents(a);
    lemma_smallest_represents(b);
    assert forall|x: Seq<char>| mentioned(a, x) == mentioned(b, x) by {
        if mentioned(a, x) {
            lemma_mentioned_extends(a, b, x);
        }
        if mentioned(b, x) {
            lemma_mentioned_extends(b, a, x);
        }
    }
    assert forall|x: Seq<char>| #[trigger] ma.dom().contains(x) implies ma[x] == mb[x] by {
        assert(mentioned(a, x));
        assert(mb.dom().contains(x));
        // each map's choice is a duplicate in the other map's eyes as well
        assert(ma.dom().contains(ma[x]) && mb.dom().contains(mb[x]));
        assert(mentioned(a, ma[x]) && mentioned(b, mb[x]));
        lemma_connected_extends(a, b, x, ma[x]);
        lemma_connected_extends(b, a, x, mb[x]);
        law_compressed_map_picks_smallest(b, x, ma[x]);
        law_compressed_map_picks_smallest(a, x, mb[x]);
        text::lemma_str_lt_total(ma[x], mb[x]);
    }
    assert(ma =~= mb);
}

proof fn lemma_mentioned_extends(fewer: Seq<Alias>, more: Seq<Alias>, x: Seq<char>)
    requires
        mentioned(fewer, x),
        forall|i: int|
            0 <= i < fewer.len() ==> more.contains(#[trigger] fewer[i]) || more.contains(
                (fewer[i].1, fewer[i].0),
            ),
    ensures
        mentioned(more, x),
{
    let i = choose|i: int| 0 <= i < fewer.len() && ((#[trigger] fewer[i]).0 == x || fewer[i].1 == x);
    let j = if more.contains(fewer[i]) {
        more.index_of(fewer[i])
    } else {
        more.index_of((fewer[i].1, fewer[i].0))
    };
    assert(more[j].0 == x || more[j].1 == x);
}

/// Adding an alias last makes its source, and all that stood for the same thing as its
/// source, resolve to what the target resolved to; the target's own resolution stays.
pub proof fn law_directed_map_follows_target(
    pairs: Seq<Alias>,
    source: Seq<char>,
    target: Seq<char>,
)
    requires
        mentioned(pairs, target),
    ensures
        directed_roots(pairs.push((source, target)))[source] == directed_roots(pairs)[target],
        directed_roots(pairs.push((source, target)))[target] == directed_roots(pairs)[target],
{
    lemma_directed_represents(pairs);
    let p = (source, target);
    assert(pairs.push(p).drop_last() =~= pairs);
    assert(directed_roots(pairs).dom().contains(target));
}

} // verus!
