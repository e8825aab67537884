//! The heuristics of entity deduplication: normal forms of names, shingles, MinHash
//! signatures and their bands.
use crate::collections::StringSet;
use crate::helpers::{self, normalize_string_exact};
use crate::pipeline::entropy::{self, drop_blanks};
use crate::text::{self, chars_of, decimal_string, join_strings, split_words, string_of};
use blake2::digest::consts::U8;
use blake2::{Blake2b, Digest};
use vstd::prelude::*;
use vstd::string::StringSliceAdditionalSpecFns;

pub use crate::pipeline::dedup_index::{
    build_candidate_indexes, jaccard_similarity, promote_resolved_node, DedupCandidateIndexes,
};
pub use crate::pipeline::entropy::{has_high_entropy, MIN_NAME_LENGTH, MIN_TOKEN_COUNT};
pub use crate::pipeline::node_ops::DedupResolutionState;

verus! {

/// The number of hash functions of a signature.
pub const MINHASH_PERMUTATIONS: usize = 32;

/// The number of signature entries in a band.
pub const MINHASH_BAND_SIZE: usize = 4;

/// The share of common shingles, in hundredths, from which two names are taken as one.
pub const FUZZY_JACCARD_THRESHOLD_PERCENT: usize = 90;

/// A character that stays in the fuzzy form of a name: a lowercase letter of ASCII, a digit,
/// an apostrophe or a blank.
pub open spec fn is_fuzzy_char(c: char) -> bool {
    ('a' <= c && c <= 'z') || ('0' <= c && c <= '9') || c == '\'' || c == ' '
}

/// `s` with blanks in the place of the characters that do not stay in a fuzzy form.
pub open spec fn blanked(s: Seq<char>) -> Seq<char> {
    s.map_values(
        |c: char|
            if is_fuzzy_char(c) {
                c
            } else {
                ' '
            },
    )
}

/// A normal form reduced to its fuzzy characters, with single blanks between words.
pub open spec fn fuzzy_form(normal: Seq<char>) -> Seq<char> {
    text::collapsed(blanked(normal))
}

/// The fuzzy form of a name.
pub open spec fn fuzzy_name(name: Seq<char>) -> Seq<char> {
    fuzzy_form(helpers::normal_form(name))
}

/// Reduces a normal form to its fuzzy characters.
pub fn reduce_to_fuzzy(normal: &str) -> (r: String)
    ensures
        r@ == fuzzy_form(normal@),
{
    let chars = chars_of(normal);
    let mut out = String::new();
    let mut i: usize = 0;
    while i < chars.len()
        invariant
            i <= chars@.len(),
            chars@ == normal@,
            out@ == blanked(normal@).take(i as int),
        decreases chars.len() - i,
    {
        let c = chars[i];
        assert(blanked(normal@).take(i as int + 1) =~= blanked(normal@).take(i as int).push(
            blanked(normal@)[i as int],
        ));
        if ('a' <= c && c <= 'z') || ('0' <= c && c <= '9') || c == '\'' || c == ' ' {
            out.push(c);
        } else {
            out.push(' ');
        }
        i += 1;
    }
    assert(blanked(normal@).take(normal@.len() as int) =~= blanked(normal@));
    let parts = split_words(out.as_str());
    proof {
        reveal_strlit(" ");
        assert(" "@ =~= seq![' ']);
    }
    join_strings(&parts, " ")
}

/// The fuzzy form of a name: its normal form with everything but lowercase letters, digits
/// and apostrophes turned into blanks, and runs of blanks collapsed.
pub fn normalize_name_for_fuzzy(name: &str) -> (r: String)
    ensures
        r@ == fuzzy_name(name@),
{
    let exact = normalize_string_exact(name);
    reduce_to_fuzzy(exact.as_str())
}

/// Holds where every character stays in a fuzzy form.
pub open spec fn all_fuzzy(s: Seq<char>) -> bool {
    forall|i: int| 0 <= i < s.len() ==> is_fuzzy_char(#[trigger] s[i])
}

proof fn lemma_fuzzy_words(s: Seq<char>)
    requires
        all_fuzzy(s),
    ensures
        forall|i: int| 0 <= i < text::words(s).len() ==> all_fuzzy(#[trigger] text::words(s)[i]),
    decreases s.len(),
{
    if s.len() > 0 {
        let init = s.drop_last();
        let before = text::words(init);
        let after = text::words(s);
        let c = s[s.len() - 1];
        assert forall|i: int| 0 <= i < init.len() implies is_fuzzy_char(#[trigger] init[i]) by {
            assert(init[i] == s[i]);
        }
        lemma_fuzzy_words(init);
        text::lemma_words_are_words(init);
        if s.len() >= 2 {
            assert(init.last() == s[s.len() - 2]);
        }
        assert forall|i: int| 0 <= i < after.len() implies all_fuzzy(#[trigger] after[i]) by {
            if i < before.len() && after[i] != before[i] {
                let w = before[i];
                assert(after[i] == w.push(c));
                assert forall|k: int| 0 <= k < after[i].len() implies is_fuzzy_char(
                    #[trigger] after[i][k],
                ) by {
                    if k < w.len() {
                        assert(after[i][k] == w[k]);
                    }
                }
            } else if i >= before.len() {
                assert(after[i] == seq![c]);
            }
        }
    }
}

proof fn lemma_fuzzy_join(parts: Seq<Seq<char>>)
    requires
        forall|i: int| 0 <= i < parts.len() ==> all_fuzzy(#[trigger] parts[i]),
    ensures
        all_fuzzy(text::join(parts, seq![' '])),
    decreases parts.len(),
{
    if parts.len() > 0 {
        let init = parts.drop_last();
        let w = parts.last();
        assert(all_fuzzy(parts[parts.len() - 1]));
        assert(all_fuzzy(parts[0]));
        assert forall|i: int| 0 <= i < init.len() implies all_fuzzy(#[trigger] init[i]) by {
            assert(init[i] == parts[i]);
        }
        lemma_fuzzy_join(init);
        if parts.len() > 1 {
            let before = text::join(init, seq![' ']);
            let s = text::join(parts, seq![' ']);
            assert forall|i: int| 0 <= i < s.len() implies is_fuzzy_char(#[trigger] s[i]) by {
                if i < before.len() {
                    assert(s[i] == before[i]);
                } else if i > before.len() {
                    assert(s[i] == w[i - before.len() - 1]);
                }
            }
        }
    }
}

/// A fuzzy form has only lowercase letters of ASCII, digits, apostrophes and single blanks between
/// its words, and nothing to trim. It is its own fuzzy form.
pub proof fn law_fuzzy_form_stays(normal: Seq<char>)
    ensures
        all_fuzzy(fuzzy_form(normal)),
        text::is_collapsed(fuzzy_form(normal)),
        text::trim(fuzzy_form(normal)) == fuzzy_form(normal),
        fuzzy_form(fuzzy_form(normal)) == fuzzy_form(normal),
{
    let blank = blanked(normal);
    let f = fuzzy_form(normal);
    assert(all_fuzzy(blank));
    lemma_fuzzy_words(blank);
    lemma_fuzzy_join(text::words(blank));
    text::law_collapsing_happens_once(blank);
    assert(blanked(f) =~= f) by {
        assert forall|i: int| 0 <= i < f.len() implies blanked(f)[i] == f[i] by {
            assert(is_fuzzy_char(f[i]));
        }
    }
}

/// The fuzzy form of a name has only lowercase letters of ASCII, digits, apostrophes and single
/// blanks, and is its own fuzzy name. It is the fuzzy name of the normal form where this is its own
/// normal form, as it is where the words of the name are of ASCII.
pub proof fn law_fuzzy_name_is_fuzzy(name: Seq<char>)
    ensures
        ({
            let f = fuzzy_name(name);
            let n = helpers::normal_form(name);
            &&& all_fuzzy(f)
            &&& text::is_collapsed(f)
            &&& text::trim(f) == f
            &&& fuzzy_form(f) == f
            &&& fuzzy_name(f) == f
            &&& text::all_ascii(text::collapsed(name)) ==> fuzzy_name(n) == f
            &&& helpers::normal_form(n) == n ==> fuzzy_name(n) == f
        }),
{
    let f = fuzzy_name(name);
    law_fuzzy_form_stays(helpers::normal_form(name));
    assert(text::lowercase(f) =~= f) by {
        assert forall|i: int| 0 <= i < f.len() implies (#[trigger] f[i] as int) < 0x80
            && text::ascii_lower(f[i]) == f[i] by {
            assert(is_fuzzy_char(f[i]));
        }
        assert(text::ascii_lowercase(f) =~= f);
    }
    helpers::law_normal_form_is_of_a_collapsed_text(f);
    if text::all_ascii(text::collapsed(name)) {
        helpers::law_ascii_normal_form_stays(name);
    }
}

/// The runs of three neighbouring characters of `s`; of a single character, the character.
pub open spec fn grams(s: Seq<char>) -> Set<Seq<char>> {
    if s.len() == 0 {
        Set::empty()
    } else if s.len() == 1 {
        Set::empty().insert(s)
    } else {
        Set::new(|g: Seq<char>| exists|i: int| 0 <= i < s.len() - 2 && g == #[trigger] s.subrange(
            i,
            i + 3,
        ))
    }
}

/// The shingles of a fuzzy name: the three-character runs of its characters other than blanks.
pub open spec fn shingle_set(fuzzy: Seq<char>) -> Set<Seq<char>> {
    grams(entropy::without_blanks(fuzzy))
}

/// The shingles of a fuzzy name.
pub fn shingles(normalized_name: &str) -> (r: StringSet)
    ensures
        r@ == shingle_set(normalized_name@),
{
    let cleaned = drop_blanks(normalized_name);
    let ghost s = cleaned@;
    let mut set = StringSet::new();
    if cleaned.len() < 2 {
        if cleaned.len() > 0 {
            let whole = string_of(&cleaned, 0, cleaned.len());
            assert(whole@ =~= s);
            set.insert(whole);
        }
        assert(set@ =~= grams(s));
        return set;
    }
    let mut i: usize = 0;
    while i < cleaned.len() - 2
        invariant
            cleaned@ == s,
            2 <= s.len(),
            i <= s.len() - 2,
            forall|g: Seq<char>| #[trigger]
                set@.contains(g) <==> exists|j: int|
                    0 <= j < i && g == #[trigger] s.subrange(j, j + 3),
        decreases s.len() - 2 - i,
    {
        let gram = string_of(&cleaned, i, i + 3);
        let ghost before = set@;
        set.insert(gram);
        proof {
            assert forall|g: Seq<char>| #[trigger]
                set@.contains(g) <==> exists|j: int|
                    0 <= j < i + 1 && g == #[trigger] s.subrange(j, j + 3) by {
                if g == gram@ {
                    assert(g == s.subrange(i as int, i as int + 3));
                }
                if before.contains(g) {
                    let j = choose|j: int| 0 <= j < i && g == #[trigger] s.subrange(j, j + 3);
                    assert(g == s.subrange(j, j + 3));
                }
            }
        }
        i += 1;
    }
    assert(set@ =~= grams(s));
    set
}

/// The text that is hashed for a shingle under a seed.
pub open spec fn seeded(shingle: Seq<char>, seed: u64) -> Seq<char> {
    text::decimal(seed as nat) + seq![':'] + shingle
}

/// The BLAKE2b digest of eight bytes.
pub uninterp spec fn blake2b_8(bytes: Seq<u8>) -> Seq<u8>;

/// `Blake2b` of `blake2` with an output of eight bytes, over `bytes` in one update. The
/// digest depends on the bytes alone.
#[verifier::external_body]
fn blake2b_64_digest(bytes: &[u8]) -> (r: [u8; 8])
    ensures
        r@ == blake2b_8(bytes@),
{
    let mut hasher = Blake2b::<U8>::new();
    hasher.update(bytes);
    hasher.finalize().into()
}

/// Eight bytes as a number, the most significant one first.
pub open spec fn big_endian(b: Seq<u8>) -> int {
    b[0] * 0x100_0000_0000_0000 + b[1] * 0x1_0000_0000_0000 + b[2] * 0x100_0000_0000 + b[3]
        * 0x1_0000_0000 + b[4] * 0x100_0000 + b[5] * 0x1_0000 + b[6] * 0x100 + b[7]
}

/// Eight bytes as a number, the most significant one first.
pub fn from_big_endian(b: [u8; 8]) -> (r: u64)
    ensures
        r == big_endian(b@),
{
    b[0] as u64 * 0x100_0000_0000_0000 + b[1] as u64 * 0x1_0000_0000_0000 + b[2] as u64
        * 0x100_0000_0000 + b[3] as u64 * 0x1_0000_0000 + b[4] as u64 * 0x100_0000 + b[5] as u64
        * 0x1_0000 + b[6] as u64 * 0x100 + b[7] as u64
}

/// The hash of a shingle under a seed.
pub open spec fn shingle_hash(shingle: Seq<char>, seed: u64) -> int {
    big_endian(blake2b_8(vstd::utf8::encode_utf8(seeded(shingle, seed))))
}

/// The hash of a shingle under a seed: the eight-byte digest of `seed:shingle`, read with the
/// most significant byte first.
pub fn hash_shingle(shingle: &str, seed: u64) -> (r: u64)
    ensures
        r == shingle_hash(shingle@, seed),
{
    let mut text = decimal_string(seed as u128);
    text.push(':');
    text.append(shingle);
    assert(text@ =~= seeded(shingle@, seed));
    from_big_endian(blake2b_64_digest(text.as_str().as_bytes()))
}

/// Holds where `h` is the least hash of the shingles under the seed.
pub open spec fn is_min_hash(set: Set<Seq<char>>, seed: u64, h: u64) -> bool {
    &&& exists|g: Seq<char>| set.contains(g) && h == #[trigger] shingle_hash(g, seed)
    &&& forall|g: Seq<char>| set.contains(g) ==> h <= #[trigger] shingle_hash(g, seed)
}

/// The least hash of the shingles under the seed.
pub open spec fn min_hash(set: Set<Seq<char>>, seed: u64) -> u64 {
    choose|h: u64| is_min_hash(set, seed, h)
}

/// The signature of a set of shingles: its least hashes under the seeds in turn.
pub open spec fn signature(set: Set<Seq<char>>) -> Seq<u64> {
    if set == Set::<Seq<char>>::empty() {
        Seq::empty()
    } else {
        Seq::new(MINHASH_PERMUTATIONS as nat, |i: int| min_hash(set, i as u64))
    }
}

/// A set has one least hash.
pub proof fn lemma_min_hash_unique(set: Set<Seq<char>>, seed: u64, h: u64)
    requires
        is_min_hash(set, seed, h),
    ensures
        h == min_hash(set, seed),
{
    let m = min_hash(set, seed);
    assert(is_min_hash(set, seed, m));
    let g = choose|g: Seq<char>| set.contains(g) && h == #[trigger] shingle_hash(g, seed);
    let f = choose|f: Seq<char>| set.contains(f) && m == #[trigger] shingle_hash(f, seed);
    assert(m <= shingle_hash(g, seed));
    assert(h <= shingle_hash(f, seed));
}

/// The signature of a set of shingles.
pub fn minhash_signature(shingles: &StringSet) -> (r: Vec<u64>)
    ensures
        r@ == signature(shingles@),
{
    let mut out: Vec<u64> = Vec::new();
    if shingles.is_empty() {
        assert(out@ =~= signature(shingles@));
        return out;
    }
    let n = shingles.len();
    let ghost set = shingles@;
    let ghost all = shingles.elements();
    let mut seed: u64 = 0;
    while seed < MINHASH_PERMUTATIONS as u64
        invariant
            seed <= MINHASH_PERMUTATIONS,
            n == all.len(),
            n > 0,
            all == shingles.elements(),
            set == all.to_set(),
            out@.len() == seed,
            forall|i: int| 0 <= i < seed ==> #[trigger] out@[i] == min_hash(set, i as u64),
        decreases MINHASH_PERMUTATIONS - seed,
    {
        let mut least: u64 = hash_shingle(shingles.at(0).as_str(), seed);
        let mut k: usize = 1;
        proof {
            assert(all.contains(all[0]));
            assert(set.contains(all[0]));
            assert(least == shingle_hash(all[0], seed));
        }
        while k < n
            invariant
                1 <= k <= n,
                n == all.len(),
                all == shingles.elements(),
                set == all.to_set(),
                exists|g: Seq<char>| set.contains(g) && least == #[trigger] shingle_hash(g, seed),
                forall|j: int| 0 <= j < k ==> least <= shingle_hash(#[trigger] all[j], seed),
            decreases n - k,
        {
            let h = hash_shingle(shingles.at(k).as_str(), seed);
            proof {
                assert(all.contains(all[k as int]));
                assert(set.contains(all[k as int]));
                assert(h == shingle_hash(all[k as int], seed));
            }
            if h < least {
                least = h;
            }
            k += 1;
        }
        proof {
            assert(is_min_hash(set, seed, least)) by {
                assert forall|g: Seq<char>| set.contains(g) implies least <= #[trigger] shingle_hash(
                    g,
                    seed,
                ) by {
                    let j = all.index_of(g);
                    assert(all[j] == g);
                }
            }
            lemma_min_hash_unique(set, seed, least);
        }
        out.push(least);
        seed += 1;
    }
    proof {
        assert(set != Set::<Seq<char>>::empty()) by {
            assert(all.contains(all[0]));
            assert(set.contains(all[0]));
        }
        assert(out@ =~= signature(set));
    }
    out
}

/// The full bands of a signature, in order.
pub open spec fn bands(signature: Seq<u64>) -> Seq<Seq<u64>> {
    Seq::new(
        signature.len() / (MINHASH_BAND_SIZE as nat),
        |b: int| signature.subrange(
            b * MINHASH_BAND_SIZE as int,
            (b + 1) * MINHASH_BAND_SIZE as int,
        ),
    )
}

/// The views of a sequence of bands.
pub open spec fn band_views(v: Seq<Vec<u64>>) -> Seq<Seq<u64>> {
    v.map_values(|b: Vec<u64>| b@)
}

/// Splits a signature into bands; a last one that is not full is dropped.
pub fn lsh_bands(signature: &[u64]) -> (r: Vec<Vec<u64>>)
    ensures
        band_views(r@) == bands(signature@),
{
    let mut out: Vec<Vec<u64>> = Vec::new();
    let n: usize = signature.len();
    let count: usize = n / MINHASH_BAND_SIZE;
    let mut b: usize = 0;
    while b < count
        invariant
            b <= count,
            n == signature@.len(),
            count == signature@.len() / (MINHASH_BAND_SIZE as nat),
            out@.len() == b,
            forall|j: int| 0 <= j < b ==> (#[trigger] out@[j])@ == bands(signature@)[j],
        decreases count - b,
    {
        assert(b * 4 + 4 <= count * 4 <= signature@.len());
        let start: usize = b * MINHASH_BAND_SIZE;
        let mut band: Vec<u64> = Vec::new();
        let mut k: usize = 0;
        while k < MINHASH_BAND_SIZE
            invariant
                k <= MINHASH_BAND_SIZE,
                start == b * MINHASH_BAND_SIZE,
                start + MINHASH_BAND_SIZE <= signature@.len(),
                band@ == signature@.subrange(start as int, start as int + k as int),
            decreases MINHASH_BAND_SIZE - k,
        {
            band.push(signature[start + k]);
            assert(band@ =~= signature@.subrange(start as int, start as int + k as int + 1));
            k += 1;
        }
        out.push(band);
        b += 1;
    }
    assert(band_views(out@) =~= bands(signature@));
    out
}

/// Names with the same shingles have the same signature and the same bands.
pub proof fn law_same_shingles_same_bands(a: Seq<char>, b: Seq<char>)
    requires
        shingle_set(a) == shingle_set(b),
    ensures
        signature(shingle_set(a)) == signature(shingle_set(b)),
        bands(signature(shingle_set(a))) == bands(signature(shingle_set(b))),
{
}

/// A name with a shingle has a signature of `MINHASH_PERMUTATIONS` entries, and one without
/// has none.
pub proof fn law_signature_length(set: Set<Seq<char>>)
    ensures
        signature(set).len() == (if set == Set::<Seq<char>>::empty() {
            0
        } else {
            MINHASH_PERMUTATIONS as int
        }),
{
}

} // verus!
