//! Selections: the items of a sequence that meet a condition, each put into a form, in order.
use vstd::prelude::*;

verus! {

/// Holds where every number is larger than those before it.
pub open spec fn increasing(at: Seq<int>) -> bool {
    forall|i: int, j: int| 0 <= i < j < at.len() ==> #[trigger] at[i] < #[trigger] at[j]
}

/// Holds where `out` are the items of `from` that are to be kept, each as `make` has it, and `at`
/// are their positions, in order. What is kept can depend on the position.
pub open spec fn selects<A, B>(
    from: Seq<A>,
    out: Seq<B>,
    at: Seq<int>,
    keep: spec_fn(int, A) -> bool,
    make: spec_fn(A) -> B,
) -> bool {
    &&& at.len() == out.len()
    &&& increasing(at)
    &&& forall|k: int|
        #![trigger at[k]]
        #![trigger out[k]]
        0 <= k < at.len() ==> 0 <= at[k] < from.len() && keep(at[k], from[at[k]]) && out[k] == make(
            from[at[k]],
        )
    &&& forall|i: int| 0 <= i < from.len() && keep(i, #[trigger] from[i]) ==> at.contains(i)
}

/// A selection from all items but the last goes on with the last.
pub proof fn lemma_selects_next<A, B>(
    from: Seq<A>,
    before: Seq<B>,
    at: Seq<int>,
    had: spec_fn(int, A) -> bool,
    keep: spec_fn(int, A) -> bool,
    make: spec_fn(A) -> B,
)
    requires
        from.len() > 0,
        selects(from.drop_last(), before, at, had, make),
        forall|i: int|
            0 <= i < from.len() - 1 ==> had(i, #[trigger] from[i]) == keep(i, from[i]),
    ensures
        keep(from.len() - 1, from.last()) ==> selects(
            from,
            before.push(make(from.last())),
            at.push(from.len() - 1),
            keep,
            make,
        ),
        !keep(from.len() - 1, from.last()) ==> selects(from, before, at, keep, make),
{
    let init = from.drop_last();
    let n = from.len() - 1;
    assert(from[n] == from.last());
    if keep(n, from.last()) {
        let more = at.push(n);
        let out = before.push(make(from.last()));
        assert forall|k: int|
            #![trigger more[k]]
            #![trigger out[k]]
            0 <= k < more.len() implies 0 <= more[k] < from.len() && keep(more[k], from[more[k]])
            && out[k] == make(from[more[k]]) by {
            if k < at.len() {
                assert(more[k] == at[k] && out[k] == before[k]);
                assert(init[at[k]] == from[at[k]]);
            }
        }
        assert forall|i: int, j: int| 0 <= i < j < more.len() implies #[trigger] more[i]
            < #[trigger] more[j] by {
            assert(more[i] == at[i]);
            if j < at.len() {
                assert(more[j] == at[j]);
            }
        }
        assert forall|i: int| 0 <= i < from.len() && keep(i, #[trigger] from[i]) implies more.contains(
            i,
        ) by {
            if i < n {
                assert(init[i] == from[i]);
                let k = choose|k: int| 0 <= k < at.len() && at[k] == i;
                assert(more[k] == i);
            } else {
                assert(more[at.len() as int] == i);
            }
        }
    } else {
        assert forall|k: int|
            #![trigger at[k]]
            #![trigger before[k]]
            0 <= k < at.len() implies 0 <= at[k] < from.len() && keep(at[k], from[at[k]])
            && before[k] == make(from[at[k]]) by {
            assert(init[at[k]] == from[at[k]]);
        }
        assert forall|i: int| 0 <= i < from.len() && keep(i, #[trigger] from[i]) implies at.contains(
            i,
        ) by {
            assert(init[i] == from[i]);
        }
    }
}

} // verus!
