//! Documents in chunks: stored as entities with a label of their own, and found again by search.
use crate::collections::StringMap;
use crate::errors::ChronicleError;
use crate::ids::{self, uuid_from_bytes};
use crate::json::{self, clone_attributes, Json, JsonView};
use crate::pipeline::dedup_index::holds;
use crate::score::Score;
use crate::text::{
    self, chars_of, decimal_string, is_blank, is_white, owned, single, string_of, trim_bounds,
    trimmed,
};
use crate::time::Timestamp;
use crate::types::{self, Embedding};
use crate::types::node::{EntityNode, EntityNodeView};
use blake2::{Blake2b512, Digest};
use vstd::prelude::*;

verus! {

/// The label of an entity that is a chunk of a document.
pub const DOCUMENT_CHUNK_LABEL: &'static str = "DocumentChunk";

/// A chunk of a document.
#[derive(Debug)]
pub struct DocumentChunk {
    pub doc_id: String,
    pub chunk_index: usize,
    pub text: String,
    pub metadata: StringMap<Json>,
}

/// A chunk that a search found.
#[derive(Debug)]
pub struct DocumentChunkHit {
    pub text: String,
    pub score: Score,
    pub group_id: String,
    pub doc_id: Option<String>,
    pub chunk_index: Option<usize>,
    pub metadata: StringMap<Json>,
}

/// The last white space from `lo` on among the first `hi` characters.
pub open spec fn last_white(s: Seq<char>, lo: int, hi: int) -> Option<int>
    decreases hi - lo,
{
    if hi <= lo {
        None
    } else if text::is_white_space(s[hi - 1]) {
        Some(hi - 1)
    } else {
        last_white(s, lo, hi - 1)
    }
}

/// Where the window that begins at `start` ends: at most `max` characters on, at the last white
/// space where it would otherwise cut the text.
pub open spec fn window_end(s: Seq<char>, start: int, max: int) -> int {
    if start + max >= s.len() {
        s.len() as int
    } else {
        match last_white(s, start + 1, start + max) {
            Some(i) => i,
            None => start + max,
        }
    }
}

/// Where the window after one from `start` to `end` begins: `overlap` characters before its end,
/// or at its end where that would not get on.
pub open spec fn next_start(start: int, end: int, overlap: int) -> int {
    if end - overlap > start {
        end - overlap
    } else {
        end
    }
}

/// The windows of a text from `start` on.
pub open spec fn windows(s: Seq<char>, start: int, max: int, overlap: int) -> Seq<(int, int)>
    decreases s.len() - start,
    when 0 <= start && 0 < max && 0 <= overlap
{
    proof {
        lemma_window_end(s, start, max);
    }
    if start >= s.len() {
        Seq::empty()
    } else {
        let end = window_end(s, start, max);
        if end >= s.len() {
            seq![(start, end)]
        } else {
            seq![(start, end)] + windows(s, next_start(start, end, overlap), max, overlap)
        }
    }
}

/// The texts in windows without white space at their ends, but for those that are empty.
pub open spec fn pieces(s: Seq<char>, windows: Seq<(int, int)>) -> Seq<Seq<char>>
    decreases windows.len(),
{
    if windows.len() == 0 {
        Seq::empty()
    } else {
        let before = pieces(s, windows.drop_last());
        let piece = text::trim(s.subrange(windows.last().0, windows.last().1));
        if piece.len() == 0 {
            before
        } else {
            before.push(piece)
        }
    }
}

/// An overlap is shorter than a window.
pub open spec fn effective_overlap(max: int, overlap: int) -> int {
    if overlap < max {
        overlap
    } else {
        max - 1
    }
}

/// The chunks of a text: none of a blank text, the text itself where it fits, and else what is in
/// its windows.
pub open spec fn text_chunks(s: Seq<char>, max: int, overlap: int) -> Seq<Seq<char>> {
    if text::trim(s).len() == 0 || max == 0 {
        Seq::empty()
    } else if s.len() <= max {
        seq![text::trim(s)]
    } else {
        pieces(s, windows(s, 0, max, effective_overlap(max, overlap)))
    }
}

/// A window is not empty, not too long and within the text.
pub proof fn lemma_window_end(s: Seq<char>, start: int, max: int)
    requires
        0 <= start,
        0 < max,
    ensures
        start < s.len() ==> start < window_end(s, start, max) <= s.len(),
        window_end(s, start, max) <= start + max,
{
    lemma_last_white(s, start + 1, start + max);
}

proof fn lemma_last_white(s: Seq<char>, lo: int, hi: int)
    ensures
        match last_white(s, lo, hi) {
            Some(i) => lo <= i < hi && text::is_white_space(s[i]),
            None => forall|j: int| lo <= j < hi ==> !text::is_white_space(#[trigger] s[j]),
        },
    decreases hi - lo,
{
    if hi > lo && !text::is_white_space(s[hi - 1]) {
        lemma_last_white(s, lo, hi - 1);
    }
}

/// The last white space from `lo` on among the first `hi` characters.
fn find_last_white(chars: &Vec<char>, lo: usize, hi: usize) -> (r: Option<usize>)
    requires
        hi <= chars@.len(),
    ensures
        match last_white(chars@, lo as int, hi as int) {
            Some(i) => r matches Some(j) && j == i && lo <= j < hi,
            None => r is None,
        },
{
    let mut i: usize = hi;
    while i > lo
        invariant
            i <= hi <= chars@.len(),
            lo <= hi || i == hi,
            last_white(chars@, lo as int, hi as int) == last_white(chars@, lo as int, i as int),
        decreases i,
    {
        if is_white(chars[i - 1]) {
            return Some(i - 1);
        }
        i -= 1;
    }
    None
}

/// Cuts a text into windows of at most `max_chars` characters that overlap, at white space where
/// it can.
pub fn chunk_text(text: &str, max_chars: usize, overlap: usize) -> (r: Vec<String>)
    ensures
        text::views(r@) == text_chunks(text@, max_chars as int, overlap as int),
{
    let mut chunks: Vec<String> = Vec::new();
    assert(text::views(chunks@) =~= Seq::<Seq<char>>::empty());
    let whole = trimmed(text);
    let chars = chars_of(text);
    if is_blank(text) || max_chars == 0 {
        return chunks;
    }
    if chars.len() <= max_chars {
        let ghost w = whole@;
        chunks.push(whole);
        assert(text::views(chunks@) =~= seq![w]);
        return chunks;
    }
    let overlap = if overlap < max_chars {
        overlap
    } else {
        max_chars - 1
    };
    let ghost s = text@;
    let ghost max = max_chars as int;
    let ghost all = windows(s, 0, max, overlap as int);
    let ghost mut done: Seq<(int, int)> = Seq::empty();
    let mut start: usize = 0;
    let mut more = true;
    assert(done + windows(s, start as int, max, overlap as int) =~= all);
    assert(text::views(chunks@) =~= pieces(s, done));
    while more
        invariant
            chars@ == s,
            s == text@,
            max == max_chars,
            0 < max_chars,
            start <= s.len(),
            all == windows(s, 0, max, overlap as int),
            more ==> start < s.len() && all == done + windows(s, start as int, max, overlap as int),
            !more ==> all == done,
            text::views(chunks@) == pieces(s, done),
        decreases s.len() - start + (if more {
            1int
        } else {
            0int
        }),
    {
        let left: usize = chars.len() - start;
        let mut end: usize = chars.len();
        proof {
            lemma_window_end(s, start as int, max);
        }
        if max_chars < left {
            end = start + max_chars;
            match find_last_white(&chars, start + 1, end) {
                Some(i) => {
                    end = i;
                },
                None => {},
            }
        }
        assert(end == window_end(s, start as int, max));
        let (lo, hi) = trim_bounds(&chars, start, end);
        let ghost piece = text::trim(s.subrange(start as int, end as int));
        let ghost before = done;
        proof {
            done = done.push((start as int, end as int));
            assert(done.drop_last() =~= before);
        }
        if lo < hi {
            let ghost had = chunks@;
            chunks.push(string_of(&chars, lo, hi));
            assert(text::views(chunks@) =~= text::views(had).push(piece));
        }
        if end >= chars.len() {
            proof {
                assert(before + seq![(start as int, end as int)] =~= done);
            }
            more = false;
        } else {
            let next: usize = if end >= overlap {
                end - overlap
            } else {
                0
            };
            let ghost from = start as int;
            start = if next > start {
                next
            } else {
                end
            };
            proof {
                assert(start == next_start(from, end as int, overlap as int));
                let rest = windows(s, start as int, max, overlap as int);
                assert(before + (seq![(from, end as int)] + rest) =~= done + rest);
            }
        }
    }
    chunks
}

/// No chunk is empty, and none is longer than a window.
pub proof fn law_chunks_fit(s: Seq<char>, max: int, overlap: int, i: int)
    requires
        0 < max,
        0 <= overlap,
        0 <= i < text_chunks(s, max, overlap).len(),
    ensures
        0 < text_chunks(s, max, overlap)[i].len() <= max,
{
    lemma_trim_len(s);
    if s.len() > max && text::trim(s).len() > 0 {
        let o = effective_overlap(max, overlap);
        lemma_windows_fit(s, 0, max, o);
        lemma_pieces_fit(s, windows(s, 0, max, o), max, i);
    }
}

proof fn lemma_trim_len(s: Seq<char>)
    ensures
        text::trim(s).len() <= s.len(),
{
    lemma_trim_start_len(s);
    lemma_trim_end_len(text::trim_start(s));
    lemma_trim_end_len(s);
    lemma_trim_start_len(text::trim_end(s));
}

proof fn lemma_trim_start_len(s: Seq<char>)
    ensures
        text::trim_start(s).len() <= s.len(),
    decreases s.len(),
{
    if s.len() > 0 && text::is_white_space(s[0]) {
        lemma_trim_start_len(s.drop_first());
    }
}

proof fn lemma_trim_end_len(s: Seq<char>)
    ensures
        text::trim_end(s).len() <= s.len(),
    decreases s.len(),
{
    if s.len() > 0 && text::is_white_space(s.last()) {
        lemma_trim_end_len(s.drop_last());
    }
}

proof fn lemma_windows_fit(s: Seq<char>, start: int, max: int, overlap: int)
    requires
        0 <= start,
        0 < max,
        0 <= overlap,
    ensures
        forall|k: int|
            0 <= k < windows(s, start, max, overlap).len() ==> {
                let w = #[trigger] windows(s, start, max, overlap)[k];
                start <= w.0 < w.1 <= s.len() && w.1 - w.0 <= max
            },
    decreases s.len() - start,
{
    lemma_window_end(s, start, max);
    if start < s.len() {
        let end = window_end(s, start, max);
        if end < s.len() {
            lemma_windows_fit(s, next_start(start, end, overlap), max, overlap);
            let rest = windows(s, next_start(start, end, overlap), max, overlap);
            let all = windows(s, start, max, overlap);
            assert forall|k: int| 0 <= k < all.len() implies {
                let w = #[trigger] all[k];
                start <= w.0 < w.1 <= s.len() && w.1 - w.0 <= max
            } by {
                if k > 0 {
                    assert(all[k] == rest[k - 1]);
                }
            }
        }
    }
}

proof fn lemma_pieces_fit(s: Seq<char>, ws: Seq<(int, int)>, max: int, i: int)
    requires
        forall|k: int|
            0 <= k < ws.len() ==> {
                let w = #[trigger] ws[k];
                0 <= w.0 < w.1 <= s.len() && w.1 - w.0 <= max
            },
        0 <= i < pieces(s, ws).len(),
    ensures
        0 < pieces(s, ws)[i].len() <= max,
    decreases ws.len(),
{
    let init = ws.drop_last();
    assert(ws[ws.len() - 1] == ws.last());
    lemma_trim_len(s.subrange(ws.last().0, ws.last().1));
    assert forall|k: int| 0 <= k < init.len() implies {
        let w = #[trigger] init[k];
        0 <= w.0 < w.1 <= s.len() && w.1 - w.0 <= max
    } by {
        assert(init[k] == ws[k]);
    }
    if i < pieces(s, init).len() {
        lemma_pieces_fit(s, init, max, i);
    }
}

/// No character is lost: every position of the text is in one of its windows.
pub proof fn law_windows_cover_the_text(s: Seq<char>, max: int, overlap: int, i: int)
    requires
        0 < max,
        0 <= overlap,
        0 <= i < s.len(),
    ensures
        exists|k: int|
            0 <= k < windows(s, 0, max, overlap).len() && {
                let w = #[trigger] windows(s, 0, max, overlap)[k];
                w.0 <= i < w.1
            },
{
    lemma_windows_cover(s, 0, max, overlap, i);
}

proof fn lemma_windows_cover(s: Seq<char>, start: int, max: int, overlap: int, i: int)
    requires
        0 <= start <= i < s.len(),
        0 < max,
        0 <= overlap,
    ensures
        exists|k: int|
            0 <= k < windows(s, start, max, overlap).len() && {
                let w = #[trigger] windows(s, start, max, overlap)[k];
                w.0 <= i < w.1
            },
    decreases s.len() - start,
{
    lemma_window_end(s, start, max);
    let end = window_end(s, start, max);
    let all = windows(s, start, max, overlap);
    assert(all[0] == (start, end));
    if i >= end {
        let next = next_start(start, end, overlap);
        let rest = windows(s, next, max, overlap);
        lemma_windows_cover(s, next, max, overlap, i);
        let k = choose|k: int|
            0 <= k < rest.len() && {
                let w = #[trigger] rest[k];
                w.0 <= i < w.1
            };
        assert(all[k + 1] == rest[k]);
    }
}

/// A number as bytes, the least significant one first.
pub open spec fn little_endian(n: nat, count: nat) -> Seq<u8>
    decreases count,
{
    if count == 0 {
        Seq::empty()
    } else {
        seq![(n % 256) as u8] + little_endian(n / 256, (count - 1) as nat)
    }
}

/// How many bytes a position has.
pub open spec fn position_bytes() -> nat {
    (usize::BITS / 8) as nat
}

/// What the identifier of a chunk is made from: group, document and position, apart by a byte
/// that ends a unit.
pub open spec fn chunk_key(group_id: Seq<char>, doc_id: Seq<char>, chunk_index: usize) -> Seq<u8> {
    vstd::utf8::encode_utf8(group_id) + seq![0x1fu8] + vstd::utf8::encode_utf8(doc_id) + seq![
        0x1fu8,
    ] + little_endian(chunk_index as nat, position_bytes())
}

/// The BLAKE2b digest of 64 bytes.
pub uninterp spec fn blake2b_64(bytes: Seq<u8>) -> Seq<u8>;

/// `Blake2b512` of `blake2`, over `bytes` in one update. The digest depends on the bytes alone
/// and has 64 of its own.
#[verifier::external_body]
fn blake2b_512_digest(bytes: &[u8]) -> (r: [u8; 64])
    ensures
        r@ == blake2b_64(bytes@),
{
    let mut hasher = Blake2b512::new();
    hasher.update(bytes);
    hasher.finalize().into()
}

fn push_bytes(out: &mut Vec<u8>, bytes: &[u8])
    ensures
        final(out)@ == old(out)@ + bytes@,
{
    let ghost start = out@;
    let mut i: usize = 0;
    while i < bytes.len()
        invariant
            i <= bytes@.len(),
            out@ == start + bytes@.take(i as int),
        decreases bytes.len() - i,
    {
        out.push(bytes[i]);
        assert(out@ =~= start + bytes@.take(i as int + 1));
        i += 1;
    }
    assert(bytes@.take(bytes@.len() as int) =~= bytes@);
}

/// The identifier of a chunk: the same for the same group, document and position.
pub fn chunk_uuid(group_id: &str, doc_id: &str, chunk_index: usize) -> (r: String)
    ensures
        r@ == ids::hyphenated(blake2b_64(chunk_key(group_id@, doc_id@, chunk_index)).take(16)),
{
    let mut key: Vec<u8> = Vec::new();
    push_bytes(&mut key, group_id.as_bytes());
    key.push(0x1f);
    push_bytes(&mut key, doc_id.as_bytes());
    key.push(0x1f);
    let ghost head = key@;
    let mut rest: usize = chunk_index;
    let mut count: usize = (usize::BITS / 8) as usize;
    let ghost tail = little_endian(chunk_index as nat, position_bytes());
    let ghost mut done: Seq<u8> = Seq::empty();
    assert(head + done =~= head);
    assert(done + tail =~= tail);
    while count > 0
        invariant
            key@ == head + done,
            tail == done + little_endian(rest as nat, count as nat),
        decreases count,
    {
        let byte: u8 = (rest % 256) as u8;
        key.push(byte);
        proof {
            let before = done;
            let more = little_endian((rest / 256) as nat, (count - 1) as nat);
            done = done.push(byte);
            assert(before + (seq![byte] + more) =~= done + more);
            assert(key@ =~= head + done);
        }
        rest = rest / 256;
        count -= 1;
    }
    proof {
        assert(done + Seq::<u8>::empty() =~= done);
        assert(key@ =~= chunk_key(group_id@, doc_id@, chunk_index));
    }
    let d = blake2b_512_digest(key.as_slice());
    let bytes: [u8; 16] = [
        d[0], d[1], d[2], d[3], d[4], d[5], d[6], d[7], d[8], d[9], d[10], d[11], d[12], d[13],
        d[14], d[15],
    ];
    assert(bytes@ =~= d@.take(16));
    uuid_from_bytes(bytes)
}

/// The attributes of a chunk: its metadata, its document and its position.
pub open spec fn chunk_attributes(
    metadata: Map<Seq<char>, JsonView>,
    doc_id: Seq<char>,
    chunk_index: usize,
) -> Map<Seq<char>, JsonView> {
    metadata.insert("doc_id"@, JsonView::Str(doc_id)).insert(
        "chunk_index"@,
        JsonView::Int(chunk_index as int),
    )
}

/// The entity of a chunk.
pub open spec fn chunk_node(
    chunk: DocumentChunk,
    group_id: Seq<char>,
    embedding: Seq<u32>,
    created_at: Timestamp,
) -> EntityNodeView {
    EntityNodeView {
        uuid: ids::hyphenated(
            blake2b_64(chunk_key(group_id, chunk.doc_id@, chunk.chunk_index)).take(16),
        ),
        name: chunk.text@,
        group_id,
        labels: seq!["Entity"@, DOCUMENT_CHUNK_LABEL@],
        created_at,
        summary: Seq::empty(),
        attributes: chunk_attributes(
            json::attributes_view(chunk.metadata@),
            chunk.doc_id@,
            chunk.chunk_index,
        ),
        name_embedding: Some(embedding),
    }
}

/// The entity of a chunk: its text for a name, labelled as a chunk, with document and position
/// among its attributes. Metadata of these two names gives way to them.
pub fn chunk_to_entity_node(
    chunk: &DocumentChunk,
    group_id: &str,
    embedding: Embedding,
    created_at: Timestamp,
) -> (r: EntityNode)
    ensures
        r@ == chunk_node(*chunk, group_id@, embedding@, created_at),
{
    let mut node = EntityNode::new(chunk.text.clone(), owned(group_id), created_at);
    node.uuid = chunk_uuid(group_id, chunk.doc_id.as_str(), chunk.chunk_index);
    let mut labels = single("Entity");
    let ghost before = labels@;
    labels.push(owned(DOCUMENT_CHUNK_LABEL));
    assert(text::views(labels@) =~= text::views(before).push(DOCUMENT_CHUNK_LABEL@));
    assert(text::views(labels@) =~= seq!["Entity"@, DOCUMENT_CHUNK_LABEL@]);
    node.labels = labels;
    node.name_embedding = Some(embedding);
    let mut attributes = clone_attributes(&chunk.metadata);
    let ghost a0 = json::attributes_view(attributes@);
    attributes.insert(owned("doc_id"), Json::Str(chunk.doc_id.clone()));
    let ghost a1 = json::attributes_view(attributes@);
    assert(a1 =~= a0.insert("doc_id"@, JsonView::Str(chunk.doc_id@)));
    attributes.insert(owned("chunk_index"), Json::Int(chunk.chunk_index as i128));
    assert(json::attributes_view(attributes@) =~= a1.insert(
        "chunk_index"@,
        JsonView::Int(chunk.chunk_index as int),
    ));
    node.attributes = attributes;
    node
}

/// The document that attributes name.
pub open spec fn named_document(attributes: Map<Seq<char>, JsonView>) -> Option<Seq<char>> {
    if attributes.dom().contains("doc_id"@) {
        json::json_str(attributes["doc_id"@])
    } else {
        None
    }
}

/// The position that attributes name.
pub open spec fn named_position(attributes: Map<Seq<char>, JsonView>) -> Option<usize> {
    if attributes.dom().contains("chunk_index"@) {
        match json::json_u64(attributes["chunk_index"@]) {
            Some(n) => Some(n as usize),
            None => None,
        }
    } else {
        None
    }
}

/// Holds where a hit is that of an entity with a score.
pub open spec fn is_hit_of(hit: DocumentChunkHit, node: EntityNodeView, score: Score) -> bool {
    &&& hit.text@ == node.name
    &&& hit.score == score
    &&& hit.group_id@ == node.group_id
    &&& text::opt_view(hit.doc_id) == named_document(node.attributes)
    &&& hit.chunk_index == named_position(node.attributes)
    &&& json::attributes_view(hit.metadata@) == node.attributes
}

/// The hit of an entity with a score.
pub fn node_to_chunk_hit(node: EntityNode, score: Score) -> (r: DocumentChunkHit)
    ensures
        is_hit_of(r, node@, score),
{
    let doc_id = match node.attributes.get("doc_id") {
        Some(v) => match v.as_str() {
            Some(s) => Some(s.clone()),
            None => None,
        },
        None => None,
    };
    let chunk_index = match node.attributes.get("chunk_index") {
        Some(v) => match v.as_u64() {
            Some(n) => Some(n as usize),
            None => None,
        },
        None => None,
    };
    DocumentChunkHit {
        text: node.name,
        score,
        group_id: node.group_id,
        doc_id,
        chunk_index,
        metadata: node.attributes,
    }
}

/// What was stored of a chunk is found again: the hit of its entity has its text, document and
/// position, and all of its metadata but for what is named like these.
pub proof fn law_hit_gives_back_the_chunk(
    chunk: DocumentChunk,
    group_id: Seq<char>,
    embedding: Seq<u32>,
    created_at: Timestamp,
    hit: DocumentChunkHit,
    score: Score,
    key: Seq<char>,
)
    requires
        is_hit_of(hit, chunk_node(chunk, group_id, embedding, created_at), score),
    ensures
        hit.text@ == chunk.text@,
        hit.group_id@ == group_id,
        hit.doc_id is Some,
        hit.doc_id->0@ == chunk.doc_id@,
        hit.chunk_index == Some(chunk.chunk_index),
        chunk.metadata@.dom().contains(key) && key != "doc_id"@ && key != "chunk_index"@
            ==> json::attributes_view(hit.metadata@).dom().contains(key) && json::attributes_view(
            hit.metadata@,
        )[key] == json::attributes_view(chunk.metadata@)[key],
{
    reveal_strlit("doc_id");
    reveal_strlit("chunk_index");
    assert("doc_id"@.len() != "chunk_index"@.len());
}

/// Chunks of the same group, document and position have the same identifier, whatever their text
/// is: storing a document again writes over it.
pub proof fn law_chunk_identity_is_stable(
    a: DocumentChunk,
    b: DocumentChunk,
    group_id: Seq<char>,
    ea: Seq<u32>,
    eb: Seq<u32>,
    ta: Timestamp,
    tb: Timestamp,
)
    requires
        a.doc_id@ == b.doc_id@,
        a.chunk_index == b.chunk_index,
    ensures
        chunk_node(a, group_id, ea, ta).uuid == chunk_node(b, group_id, eb, tb).uuid,
{
}

/// The texts of chunks, to be embedded.
pub fn chunk_texts(chunks: &Vec<DocumentChunk>) -> (r: Vec<String>)
    ensures
        text::views(r@) == chunks@.map_values(|c: DocumentChunk| c.text@),
{
    let mut out: Vec<String> = Vec::new();
    let mut i: usize = 0;
    while i < chunks.len()
        invariant
            i <= chunks@.len(),
            out@.len() == i,
            forall|j: int| 0 <= j < i ==> (#[trigger] out@[j])@ == chunks@[j].text@,
        decreases chunks.len() - i,
    {
        out.push(chunks[i].text.clone());
        i += 1;
    }
    assert(text::views(out@) =~= chunks@.map_values(|c: DocumentChunk| c.text@));
    out
}

/// The message where not every chunk got an embedding.
pub open spec fn mismatch_message(embeddings: nat, chunks: nat) -> Seq<char> {
    "embedder returned "@ + text::decimal(embeddings) + " vectors for "@ + text::decimal(chunks) + " chunks"@
}

/// The entities of chunks, once their texts were embedded. Every chunk needs an embedding.
pub fn nodes_from_chunks(
    chunks: &Vec<DocumentChunk>,
    embeddings: &Vec<Embedding>,
    group_id: &str,
    created_at: Timestamp,
) -> (r: Result<Vec<EntityNode>, ChronicleError>)
    ensures
        match r {
            Ok(nodes) => embeddings@.len() == chunks@.len() && types::node_views(nodes@) == Seq::new(
                chunks@.len(),
                |i: int| chunk_node(chunks@[i], group_id@, embeddings@[i]@, created_at),
            ),
            Err(e) => embeddings@.len() != chunks@.len() && (e matches ChronicleError::InvalidInput(
                message,
            ) && message@ == mismatch_message(embeddings@.len(), chunks@.len())),
        },
{
    if embeddings.len() != chunks.len() {
        let mut message = owned("embedder returned ");
        let got = decimal_string(embeddings.len() as u128);
        message.append(got.as_str());
        message.append(" vectors for ");
        let wanted = decimal_string(chunks.len() as u128);
        message.append(wanted.as_str());
        message.append(" chunks");
        return Err(ChronicleError::InvalidInput(message));
    }
    let mut out: Vec<EntityNode> = Vec::new();
    let mut i: usize = 0;
    while i < chunks.len()
        invariant
            i <= chunks@.len(),
            embeddings@.len() == chunks@.len(),
            out@.len() == i,
            forall|j: int|
                0 <= j < i ==> (#[trigger] out@[j])@ == chunk_node(
                    chunks@[j],
                    group_id@,
                    embeddings@[j]@,
                    created_at,
                ),
        decreases chunks.len() - i,
    {
        let embedding = embeddings[i].clone();
        assert(embedding@ =~= embeddings@[i as int]@);
        out.push(chunk_to_entity_node(&chunks[i], group_id, embedding, created_at));
        i += 1;
    }
    assert(types::node_views(out@) =~= Seq::new(
        chunks@.len(),
        |i: int| chunk_node(chunks@[i], group_id@, embeddings@[i]@, created_at),
    ));
    Ok(out)
}

/// Tells whether a query asks for anything: it is not blank and wants at least one hit.
pub fn asks_for_chunks(query: &str, limit: usize) -> (r: bool)
    ensures
        r == (text::trim(query@).len() > 0 && limit > 0),
{
    !is_blank(query) && limit > 0
}

/// The positions of the entities that are chunks, among those that have a score.
pub open spec fn chunk_positions(nodes: Seq<EntityNodeView>, scores: nat) -> Seq<int>
    decreases nodes.len(),
{
    if nodes.len() == 0 {
        Seq::empty()
    } else {
        let before = chunk_positions(nodes.drop_last(), scores);
        if nodes.len() <= scores && nodes.last().labels.contains(DOCUMENT_CHUNK_LABEL@) {
            before.push(nodes.len() - 1)
        } else {
            before
        }
    }
}

/// Holds where hits are those of the entities at some positions, with their scores.
pub open spec fn are_hits(
    hits: Seq<DocumentChunkHit>,
    at: Seq<int>,
    nodes: Seq<EntityNodeView>,
    scores: Seq<Score>,
) -> bool {
    &&& hits.len() == at.len()
    &&& forall|i: int|
        #![trigger hits[i]]
        #![trigger at[i]]
        0 <= i < hits.len() ==> {
            &&& 0 <= at[i] < nodes.len()
            &&& at[i] < scores.len()
            &&& is_hit_of(hits[i], nodes[at[i]], scores[at[i]])
        }
}

/// The hits among entities that a search found, in order: those that are chunks.
pub fn chunk_hits(nodes: Vec<EntityNode>, scores: &Vec<Score>) -> (r: Vec<DocumentChunkHit>)
    ensures
        are_hits(
            r@,
            chunk_positions(types::node_views(nodes@), scores@.len()),
            types::node_views(nodes@),
            scores@,
        ),
{
    let ghost all = types::node_views(nodes@);
    let ghost n = scores@.len();
    let mut out: Vec<DocumentChunkHit> = Vec::new();
    let mut i: usize = 0;
    while i < nodes.len()
        invariant
            i <= nodes@.len(),
            all == types::node_views(nodes@),
            n == scores@.len(),
            are_hits(out@, chunk_positions(all.take(i as int), n), all, scores@),
        decreases nodes.len() - i,
    {
        let ghost done = chunk_positions(all.take(i as int), n);
        proof {
            assert(all.take(i as int + 1).drop_last() =~= all.take(i as int));
            assert(all.take(i as int + 1).last() == nodes@[i as int]@);
            assert(all[i as int] == nodes@[i as int]@);
        }
        if i < scores.len() && holds(&nodes[i].labels, DOCUMENT_CHUNK_LABEL) {
            let hit = node_to_chunk_hit(nodes[i].clone(), scores[i]);
            let ghost before = out@;
            out.push(hit);
            proof {
                let next = done.push(i as int);
                assert(chunk_positions(all.take(i as int + 1), n) == next);
                assert forall|j: int|
                    #![trigger out@[j]]
                    #![trigger next[j]]
                    0 <= j < out@.len() implies {
                    &&& 0 <= next[j] < all.len()
                    &&& next[j] < n
                    &&& is_hit_of(out@[j], all[next[j]], scores@[next[j]])
                } by {
                    if j < before.len() {
                        assert(out@[j] == before[j]);
                        assert(next[j] == done[j]);
                    }
                }
                assert(are_hits(out@, next, all, scores@));
            }
        } else {
            assert(chunk_positions(all.take(i as int + 1), n) == done);
        }
        i += 1;
    }
    assert(all.take(all.len() as int) =~= all);
    out
}

} // verus!
