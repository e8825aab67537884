//! What the chunks of a document promise.
use crate::document_rag::{self, DocumentChunk};
use crate::json::JsonView;
use crate::selection;
use crate::text;
use crate::time::Timestamp;
use crate::types::node::EntityNodeView;
use vstd::arithmetic::power::pow;
use vstd::prelude::*;

verus! {

proof fn lemma_last_white_is_last(s: Seq<char>, lo: int, hi: int)
    ensures
        match document_rag::last_white(s, lo, hi) {
            Some(i) => {
                &&& lo <= i < hi
                &&& text::is_white_space(s[i])
                &&& forall|j: int| i < j < hi ==> !text::is_white_space(#[trigger] s[j])
            },
            None => forall|j: int| lo <= j < hi ==> !text::is_white_space(#[trigger] s[j]),
        },
    decreases hi - lo,
{
    if hi > lo && !text::is_white_space(s[hi - 1]) {
        lemma_last_white_is_last(s, lo, hi - 1);
    }
}

/// A window that reaches the end of the text ends there. Any other ends before the last white space
/// that it could have, other than its first character, and where there is none it has as many
/// characters as it may have.
pub proof fn law_window_ends_before_the_last_gap(s: Seq<char>, start: int, max: int, j: int)
    requires
        0 <= start,
        0 < max,
    ensures
        ({
            let end = document_rag::window_end(s, start, max);
            &&& start + max >= s.len() ==> end == s.len()
            &&& start + max < s.len() ==> {
                &&& start < end <= start + max
                &&& end < start + max ==> text::is_white_space(s[end])
                &&& end < j < start + max ==> !text::is_white_space(s[j])
                &&& start < j < start + max && text::is_white_space(s[j]) ==> j <= end < start
                    + max
            }
        }),
{
    lemma_last_white_is_last(s, start + 1, start + max);
}

/// The windows of a text lead from its beginning to its end. Each begins `overlap` characters before
/// the end of the one before it, or at that end where it would not begin later than that one.
pub proof fn law_windows_lead_through_the_text(
    s: Seq<char>,
    start: int,
    max: int,
    overlap: int,
    k: int,
)
    requires
        0 <= start < s.len(),
        0 < max,
        0 <= overlap,
    ensures
        ({
            let all = document_rag::windows(s, start, max, overlap);
            &&& all.len() > 0
            &&& all[0].0 == start
            &&& all.last().1 == s.len()
            &&& 0 <= k < all.len() ==> all[k].1 == document_rag::window_end(s, all[k].0, max)
            &&& 0 <= k < all.len() - 1 ==> {
                &&& all[k].1 < s.len()
                &&& all[k].1 - overlap > all[k].0 ==> all[k + 1].0 == all[k].1 - overlap
                &&& all[k].1 - overlap <= all[k].0 ==> all[k + 1].0 == all[k].1
            }
        }),
    decreases s.len() - start,
{
    document_rag::lemma_window_end(s, start, max);
    let end = document_rag::window_end(s, start, max);
    let all = document_rag::windows(s, start, max, overlap);
    if end < s.len() {
        let next = document_rag::next_start(start, end, overlap);
        let rest = document_rag::windows(s, next, max, overlap);
        law_windows_lead_through_the_text(s, next, max, overlap, k - 1);
        assert(all.last() == rest.last());
        assert(all[1] == rest[0]);
        if 1 <= k < all.len() {
            assert(all[k] == rest[k - 1]);
        }
        if 0 <= k < all.len() - 1 {
            assert(all[k + 1] == rest[k]);
        }
    }
}

/// The pieces of a text are what its windows hold without white space at the ends, in order; windows
/// with nothing but white space have none.
pub proof fn law_pieces_are_what_windows_hold(s: Seq<char>, windows: Seq<(int, int)>) -> (at: Seq<
    int,
>)
    ensures
        selection::selects(
            windows,
            document_rag::pieces(s, windows),
            at,
            |i: int, w: (int, int)| text::trim(s.subrange(w.0, w.1)).len() > 0,
            |w: (int, int)| text::trim(s.subrange(w.0, w.1)),
        ),
    decreases windows.len(),
{
    let keep = |i: int, w: (int, int)| text::trim(s.subrange(w.0, w.1)).len() > 0;
    let make = |w: (int, int)| text::trim(s.subrange(w.0, w.1));
    if windows.len() == 0 {
        Seq::empty()
    } else {
        let init = windows.drop_last();
        let at = law_pieces_are_what_windows_hold(s, init);
        selection::lemma_selects_next(windows, document_rag::pieces(s, init), at, keep, keep, make);
        if keep(windows.len() - 1, windows.last()) {
            at.push(windows.len() - 1)
        } else {
            at
        }
    }
}

/// A blank text has no chunk, and a text that fits is one, without white space at its ends. A longer
/// one is cut into what its windows hold, and an overlap that is not shorter than a window counts as
/// one character less than it.
pub proof fn law_long_texts_are_cut(s: Seq<char>, max: int, overlap: int)
    requires
        0 < max,
        0 <= overlap,
    ensures
        text::trim(s).len() == 0 ==> document_rag::text_chunks(s, max, overlap).len() == 0,
        0 < text::trim(s).len() && s.len() <= max ==> document_rag::text_chunks(s, max, overlap)
            == seq![text::trim(s)],
        0 < text::trim(s).len() && max < s.len() && overlap < max ==> document_rag::text_chunks(
            s,
            max,
            overlap,
        ) == document_rag::pieces(s, document_rag::windows(s, 0, max, overlap)),
        max <= overlap ==> document_rag::text_chunks(s, max, overlap)
            == document_rag::text_chunks(s, max, max - 1),
{
}

/// The hits are the entities that have a score and are labelled as chunks, in order.
pub proof fn law_hits_are_the_chunks(nodes: Seq<EntityNodeView>, scores: nat) -> (at: Seq<int>)
    ensures
        at == document_rag::chunk_positions(nodes, scores),
        selection::increasing(at),
        forall|k: int|
            0 <= k < at.len() ==> 0 <= #[trigger] at[k] < nodes.len() && at[k] < scores
                && nodes[at[k]].labels.contains("DocumentChunk"@),
        forall|i: int|
            0 <= i < nodes.len() && i < scores && (#[trigger] nodes[i]).labels.contains(
                "DocumentChunk"@,
            ) ==> at.contains(i),
    decreases nodes.len(),
{
    let all = document_rag::chunk_positions(nodes, scores);
    if nodes.len() > 0 {
        let init = nodes.drop_last();
        let n = nodes.len() - 1;
        let at = law_hits_are_the_chunks(init, scores);
        assert forall|k: int| 0 <= k < at.len() implies 0 <= #[trigger] at[k] < n
            && nodes[at[k]].labels.contains("DocumentChunk"@) by {
            assert(init[at[k]] == nodes[at[k]]);
        }
        assert(nodes[n] == nodes.last());
        assert forall|i: int|
            0 <= i < nodes.len() && i < scores && (#[trigger] nodes[i]).labels.contains(
                "DocumentChunk"@,
            ) implies all.contains(i) by {
            if i < n {
                assert(init[i] == nodes[i]);
                let k = choose|k: int| 0 <= k < at.len() && at[k] == i;
                assert(all[k] == i);
            } else {
                assert(all[at.len() as int] == n);
            }
        }
    }
    all
}

/// The bytes of a number are its digits to the base 256, the last one first.
pub proof fn law_bytes_are_digits(n: nat, count: nat, k: int)
    requires
        0 <= k < count,
    ensures
        document_rag::little_endian(n, count).len() == count,
        document_rag::little_endian(n, count)[k] == (n as int / pow(256, k as nat)) % 256,
    decreases count,
{
    let rest = document_rag::little_endian(n / 256, (count - 1) as nat);
    let all = document_rag::little_endian(n, count);
    if k == 0 {
        vstd::arithmetic::power::lemma_pow0(256);
        if count > 1 {
            law_bytes_are_digits(n / 256, (count - 1) as nat, 0);
        }
        assert(n as int / 1 == n) by (nonlinear_arith);
    } else {
        law_bytes_are_digits(n / 256, (count - 1) as nat, k - 1);
        assert(all[k] == rest[k - 1]);
        let p = pow(256, (k - 1) as nat);
        vstd::arithmetic::power::lemma_pow_positive(256, (k - 1) as nat);
        reveal(pow);
        assert(pow(256, k as nat) == 256 * p);
        vstd::arithmetic::div_mod::lemma_div_denominator(n as int, 256, p);
    }
}

proof fn lemma_bytes_differ(m: nat, n: nat, count: nat)
    requires
        m < pow(256, count),
        n < pow(256, count),
        document_rag::little_endian(m, count) == document_rag::little_endian(n, count),
    ensures
        m == n,
    decreases count,
{
    if count == 0 {
        vstd::arithmetic::power::lemma_pow0(256);
    } else {
        let c = (count - 1) as nat;
        let a = document_rag::little_endian(m, count);
        let b = document_rag::little_endian(n, count);
        reveal(pow);
        assert(a[0] == (m % 256) as u8 && b[0] == (n % 256) as u8);
        assert(m % 256 == n % 256);
        assert(a.skip(1) =~= document_rag::little_endian(m / 256, c));
        assert(b.skip(1) =~= document_rag::little_endian(n / 256, c));
        lemma_bytes_differ(m / 256, n / 256, c);
    }
}

/// What the identifiers of two chunks of a document are made from differs where their positions
/// do.
pub proof fn law_positions_tell_chunks_apart(
    group_id: Seq<char>,
    doc_id: Seq<char>,
    a: usize,
    b: usize,
)
    requires
        a != b,
    ensures
        document_rag::chunk_key(group_id, doc_id, a) != document_rag::chunk_key(group_id, doc_id, b),
{
    let ka = document_rag::chunk_key(group_id, doc_id, a);
    let kb = document_rag::chunk_key(group_id, doc_id, b);
    if ka == kb {
        let n = document_rag::position_bytes();
        let la = document_rag::little_endian(a as nat, n);
        let lb = document_rag::little_endian(b as nat, n);
        let front = vstd::utf8::encode_utf8(group_id) + seq![0x1fu8] + vstd::utf8::encode_utf8(
            doc_id,
        ) + seq![0x1fu8];
        assert(ka.skip(front.len() as int) =~= la);
        assert(kb.skip(front.len() as int) =~= lb);
        lemma_position_bytes();
        lemma_bytes_differ(a as nat, b as nat, n);
    }
}

proof fn lemma_position_bytes()
    ensures
        usize::MAX < pow(256, document_rag::position_bytes()),
{
    reveal(pow);
    reveal_with_fuel(pow, 9);
    assert(pow(256, 4) == 0x1_0000_0000);
    assert(pow(256, 8) == 0x1_0000_0000_0000_0000);
}

/// The entity of a chunk has the text for a name, its group and its embedding, and is labelled as an
/// entity and as a chunk. It says which document it is from and at which position.
pub proof fn law_chunk_is_an_entity(
    chunk: DocumentChunk,
    group_id: Seq<char>,
    embedding: Seq<u32>,
    created_at: Timestamp,
)
    ensures
        ({
            let node = document_rag::chunk_node(chunk, group_id, embedding, created_at);
            &&& node.name == chunk.text@
            &&& node.group_id == group_id
            &&& node.created_at == created_at
            &&& node.name_embedding == Some(embedding)
            &&& node.labels.contains("Entity"@)
            &&& node.labels.contains("DocumentChunk"@)
            &&& node.attributes.dom().contains("doc_id"@)
            &&& node.attributes["doc_id"@] == JsonView::Str(chunk.doc_id@)
            &&& node.attributes.dom().contains("chunk_index"@)
            &&& node.attributes["chunk_index"@] == JsonView::Int(chunk.chunk_index as int)
        }),
{
    reveal_strlit("doc_id");
    reveal_strlit("chunk_index");
    assert("doc_id"@.len() != "chunk_index"@.len());
    let node = document_rag::chunk_node(chunk, group_id, embedding, created_at);
    assert(node.labels[0] == "Entity"@);
    assert(node.labels[1] == "DocumentChunk"@);
}

} // verus!
