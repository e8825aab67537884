//! What approximate matching of names promises.
use crate::collections;
use crate::helpers;
use crate::pipeline::dedup_helpers;
use crate::pipeline::dedup_index::{self, Candidates, Ratio};
use crate::pipeline::entropy;
use crate::search::laws;
use crate::selection;
use crate::text;
use crate::types::EntityNodeView;
use vstd::arithmetic::power::pow;
use vstd::prelude::*;

verus! {

/// What is left of a text without blanks are its other characters, in order.
pub proof fn law_blanks_are_dropped(s: Seq<char>) -> (at: Seq<int>)
    ensures
        selection::selects(
            s,
            entropy::without_blanks(s),
            at,
            |i: int, c: char| c != ' ',
            |c: char| c,
        ),
    decreases s.len(),
{
    let keep = |i: int, c: char| c != ' ';
    let make = |c: char| c;
    if s.len() == 0 {
        Seq::empty()
    } else {
        let init = s.drop_last();
        let at = law_blanks_are_dropped(init);
        selection::lemma_selects_next(s, entropy::without_blanks(init), at, keep, keep, make);
        if s.last() == ' ' {
            at
        } else {
            at.push(s.len() - 1)
        }
    }
}

/// A character occurs as often as there are positions that hold it.
pub proof fn law_occurrences_are_positions(s: Seq<char>, c: char) -> (at: Seq<int>)
    ensures
        at.len() == entropy::occurrences(s, c),
        selection::increasing(at),
        forall|k: int| 0 <= k < at.len() ==> 0 <= #[trigger] at[k] < s.len() && s[at[k]] == c,
        forall|i: int| 0 <= i < s.len() && #[trigger] s[i] == c ==> at.contains(i),
    decreases s.len(),
{
    if s.len() == 0 {
        Seq::empty()
    } else {
        let init = s.drop_last();
        let n = s.len() - 1;
        let at = law_occurrences_are_positions(init, c);
        assert forall|i: int| 0 <= i < n && #[trigger] s[i] == c implies at.contains(i) by {
            assert(init[i] == c);
        }
        assert forall|k: int| 0 <= k < at.len() implies 0 <= #[trigger] at[k] < n && s[at[k]]
            == c by {
            assert(init[at[k]] == s[at[k]]);
        }
        assert(s.last() == s[n]);
        if s.last() == c {
            let more = at.push(n);
            assert forall|i: int| 0 <= i < s.len() && #[trigger] s[i] == c implies more.contains(
                i,
            ) by {
                if i < n {
                    let k = choose|k: int| 0 <= k < at.len() && at[k] == i;
                    assert(more[k] == i);
                } else {
                    assert(more[at.len() as int] == n);
                }
            }
            more
        } else {
            at
        }
    }
}

proof fn lemma_length_product(t: nat, k: nat)
    ensures
        entropy::length_product(t, k) == pow((t * t) as int, k),
    decreases k,
{
    let tt = (t * t) as int;
    if k == 0 {
        vstd::arithmetic::power::lemma_pow0(tt);
    } else {
        lemma_length_product(t, (k - 1) as nat);
        let p = entropy::length_product(t, (k - 1) as nat);
        reveal(pow);
        assert(p * t * t == tt * p) by (nonlinear_arith)
            requires
                tt == t * t,
        ;
    }
}

proof fn lemma_repetition_product(s: Seq<char>, k: nat, n: nat)
    requires
        k <= s.len(),
        forall|i: int| 0 <= i < s.len() ==> entropy::occurrences(s, #[trigger] s[i]) == n,
    ensures
        entropy::repetition_product(s, k) == pow((8 * n * n) as int, k),
    decreases k,
{
    let m = (8 * n * n) as int;
    if k == 0 {
        vstd::arithmetic::power::lemma_pow0(m);
    } else {
        lemma_repetition_product(s, (k - 1) as nat, n);
        assert(entropy::occurrences(s, s[k - 1]) == n);
        let p = entropy::repetition_product(s, (k - 1) as nat);
        reveal(pow);
        assert(p * 8 * n * n == m * p) by (nonlinear_arith)
            requires
                m == 8 * n * n,
        ;
    }
}

proof fn lemma_pow_orders(a: int, b: int, k: nat)
    requires
        0 <= a,
        0 <= b,
        k > 0,
    ensures
        pow(a, k) >= 0,
        a <= b ==> pow(a, k) <= pow(b, k),
        a < b ==> pow(a, k) < pow(b, k),
    decreases k,
{
    reveal(pow);
    if k == 1 {
        vstd::arithmetic::power::lemma_pow1(a);
        vstd::arithmetic::power::lemma_pow1(b);
    } else {
        lemma_pow_orders(a, b, (k - 1) as nat);
        let p = pow(a, (k - 1) as nat);
        let q = pow(b, (k - 1) as nat);
        assert(a * p >= 0) by (nonlinear_arith)
            requires
                a >= 0,
                p >= 0,
        ;
        assert(a <= b && p <= q ==> a * p <= b * q) by (nonlinear_arith)
            requires
                a >= 0,
                p >= 0,
        ;
        assert(a < b && p < q ==> a * p < b * q) by (nonlinear_arith)
            requires
                a >= 0,
                p >= 0,
        ;
    }
}

/// A text in which every character occurs equally often has the entropy of a choice among as many
/// characters as it has different ones: at least one and a half bits where the square of the length
/// is at least eight times that of how often each occurs. So it has where no character occurs twice
/// and there are three of them, and it has not where one character, or two, make it up.
pub proof fn law_entropy_of_even_characters(s: Seq<char>, n: nat)
    requires
        s.len() > 0,
        forall|i: int| 0 <= i < s.len() ==> entropy::occurrences(s, #[trigger] s[i]) == n,
    ensures
        entropy::entropy_at_least_three_halves(s) <==> s.len() * s.len() >= 8 * n * n,
        n == 1 ==> (entropy::entropy_at_least_three_halves(s) <==> s.len() >= 3),
        s.len() == n ==> !entropy::entropy_at_least_three_halves(s),
        s.len() == 2 * n ==> !entropy::entropy_at_least_three_halves(s),
        s.len() == 3 * n ==> entropy::entropy_at_least_three_halves(s),
{
    let t = s.len();
    lemma_length_product(t, t);
    lemma_repetition_product(s, t, n);
    let a = (t * t) as int;
    let b = (8 * n * n) as int;
    assert(a >= 0 && b >= 0) by (nonlinear_arith)
        requires
            a == t * t,
            b == 8 * n * n,
    ;
    lemma_pow_orders(a, b, t);
    lemma_pow_orders(b, a, t);
    assert(n == 1 ==> (t * t >= 8 * n * n <==> t >= 3)) by (nonlinear_arith);
    assert(t == n && t > 0 ==> t * t < 8 * n * n) by (nonlinear_arith);
    assert(t == 2 * n && t > 0 ==> t * t < 8 * n * n) by (nonlinear_arith);
    assert(t == 3 * n ==> t * t >= 8 * n * n) by (nonlinear_arith);
}

/// A single word of fewer than six characters is not specific, nor is a name without a character
/// other than the blank. Any other name is specific where the characters other than the blank have
/// an entropy of at least one and a half bits.
pub proof fn law_specific_names(name: Seq<char>)
    ensures
        name.len() < 6 && text::words(name).len() < 2 ==> !entropy::high_entropy(name),
        (forall|i: int| 0 <= i < name.len() ==> #[trigger] name[i] == ' ')
            ==> !entropy::high_entropy(name),
        name.len() >= 6 || text::words(name).len() >= 2 ==> (entropy::high_entropy(name)
            <==> entropy::entropy_at_least_three_halves(entropy::without_blanks(name))),
{
    let at = law_blanks_are_dropped(name);
    if forall|i: int| 0 <= i < name.len() ==> #[trigger] name[i] == ' ' {
        let kept = entropy::without_blanks(name);
        if kept.len() > 0 {
            assert(kept[0] == name[at[0]]);
        }
    }
}

/// The shingles of a text of three characters or more are its runs of three neighbours. A single
/// character is its own shingle, and a text of two has none.
pub proof fn law_shingles_are_runs_of_three(s: Seq<char>, g: Seq<char>)
    ensures
        s.len() == 1 ==> (dedup_helpers::grams(s).contains(g) <==> g == s),
        s.len() != 1 ==> (dedup_helpers::grams(s).contains(g) <==> g.len() == 3 && exists|i: int|
            0 <= i < s.len() - 2 && #[trigger] s[i] == g[0] && s[i + 1] == g[1] && s[i + 2]
                == g[2]),
{
    if s.len() >= 2 {
        if dedup_helpers::grams(s).contains(g) {
            let i = choose|i: int| 0 <= i < s.len() - 2 && g == #[trigger] s.subrange(i, i + 3);
            assert(s[i] == g[0]);
        }
        if g.len() == 3 && exists|i: int|
            0 <= i < s.len() - 2 && #[trigger] s[i] == g[0] && s[i + 1] == g[1] && s[i + 2]
                == g[2] {
            let i = choose|i: int|
                0 <= i < s.len() - 2 && #[trigger] s[i] == g[0] && s[i + 1] == g[1] && s[i + 2]
                    == g[2];
            assert(g =~= s.subrange(i, i + 3));
        }
    }
}

/// What is hashed for a shingle under a seed is the decimal numeral of the seed, a colon and the
/// shingle.
pub proof fn law_seed_stands_before_the_shingle(shingle: Seq<char>, seed: u64) -> (n: int)
    ensures
        0 < n < dedup_helpers::seeded(shingle, seed).len(),
        text::numeral_value(dedup_helpers::seeded(shingle, seed).take(n)) == seed,
        forall|i: int|
            0 <= i < n ==> '0' <= #[trigger] dedup_helpers::seeded(shingle, seed)[i] <= '9',
        n > 1 ==> dedup_helpers::seeded(shingle, seed)[0] != '0',
        dedup_helpers::seeded(shingle, seed)[n] == ':',
        dedup_helpers::seeded(shingle, seed).skip(n + 1) == shingle,
{
    let all = dedup_helpers::seeded(shingle, seed);
    let digits = text::decimal(seed as nat);
    text::law_numeral_stands_for_its_number(seed as nat);
    assert(all.take(digits.len() as int) =~= digits);
    assert(all.skip(digits.len() as int + 1) =~= shingle);
    assert forall|i: int| 0 <= i < digits.len() implies '0' <= #[trigger] all[i] <= '9' by {
        assert(all[i] == digits[i]);
    }
    assert(all[0] == digits[0]);
    digits.len() as int
}

proof fn lemma_hash_range(shingle: Seq<char>, seed: u64)
    ensures
        0 <= dedup_helpers::shingle_hash(shingle, seed) <= u64::MAX,
{
}

proof fn lemma_least_hash(set: Set<Seq<char>>, seed: u64, g: Seq<char>)
    requires
        set.contains(g),
    ensures
        dedup_helpers::is_min_hash(set, seed, dedup_helpers::min_hash(set, seed)),
    decreases dedup_helpers::shingle_hash(g, seed),
{
    lemma_hash_range(g, seed);
    let h = dedup_helpers::shingle_hash(g, seed);
    if forall|f: Seq<char>|
        set.contains(f) ==> h <= #[trigger] dedup_helpers::shingle_hash(f, seed) {
        assert(dedup_helpers::is_min_hash(set, seed, h as u64));
    } else {
        let f = choose|f: Seq<char>|
            set.contains(f) && h > #[trigger] dedup_helpers::shingle_hash(f, seed);
        lemma_hash_range(f, seed);
        lemma_least_hash(set, seed, f);
    }
}

/// A set with a shingle has a signature of thirty-two entries. The entry at a position is the hash
/// of one of its shingles under the position as the seed, and none of them hashes lower.
pub proof fn law_signature_has_the_least_hashes(set: Set<Seq<char>>, g: Seq<char>, i: int)
    requires
        set.contains(g),
        0 <= i < 32,
    ensures
        dedup_helpers::signature(set).len() == 32,
        dedup_helpers::signature(set)[i] <= dedup_helpers::shingle_hash(g, i as u64),
        exists|f: Seq<char>|
            set.contains(f) && dedup_helpers::signature(set)[i]
                == #[trigger] dedup_helpers::shingle_hash(f, i as u64),
{
    lemma_least_hash(set, i as u64, g);
    assert(set != Set::<Seq<char>>::empty());
}

/// The bands of a signature are its runs of four entries, one behind the other; what is left over at
/// the end is in none.
pub proof fn law_bands_are_runs_of_four(signature: Seq<u64>, b: int, k: int)
    requires
        0 <= b,
        4 * b + 4 <= signature.len(),
        0 <= k < 4,
    ensures
        4 * dedup_helpers::bands(signature).len() <= signature.len() < 4 * dedup_helpers::bands(
            signature,
        ).len() + 4,
        b < dedup_helpers::bands(signature).len(),
        dedup_helpers::bands(signature)[b].len() == 4,
        dedup_helpers::bands(signature)[b][k] == signature[4 * b + k],
{
}

/// The shingles of a name.
pub open spec fn shingles_of(name: Seq<char>) -> Set<Seq<char>> {
    dedup_helpers::shingle_set(dedup_helpers::fuzzy_name(name))
}

proof fn lemma_grams_are_finite(s: Seq<char>)
    ensures
        dedup_helpers::grams(s).finite(),
        dedup_helpers::grams(s).len() <= s.len(),
    decreases s.len(),
{
    let all = dedup_helpers::grams(s);
    if s.len() == 0 {
    } else if s.len() == 1 {
    } else if s.len() == 2 {
        assert(all =~= Set::<Seq<char>>::empty()) by {
            assert forall|g: Seq<char>| !all.contains(g) by {
                law_shingles_are_runs_of_three(s, g);
            }
        }
    } else {
        let init = s.drop_last();
        let before = dedup_helpers::grams(init);
        let n = s.len() - 3;
        let last = s.subrange(n, n + 3);
        lemma_grams_are_finite(init);
        assert(all =~= before.insert(last)) by {
            assert forall|g: Seq<char>| all.contains(g) <==> before.insert(last).contains(g) by {
                if all.contains(g) {
                    let i = choose|i: int|
                        0 <= i < s.len() - 2 && g == #[trigger] s.subrange(i, i + 3);
                    if i < n {
                        assert(g =~= init.subrange(i, i + 3));
                    }
                }
                if before.contains(g) {
                    let i = choose|i: int|
                        0 <= i < init.len() - 2 && g == #[trigger] init.subrange(i, i + 3);
                    assert(g =~= s.subrange(i, i + 3));
                }
                assert(all.contains(s.subrange(n, n + 3)));
            }
        }
    }
}

proof fn lemma_shingles_are_finite(name: Seq<char>)
    ensures
        shingles_of(name).finite(),
{
    lemma_grams_are_finite(entropy::without_blanks(dedup_helpers::fuzzy_name(name)));
}

/// The similarity of two sets with elements is how many they share, over how many there are in
/// either. Two sets without any are the same, and one without any has nothing of another.
pub proof fn law_similarity_is_the_common_share(a: Set<Seq<char>>, b: Set<Seq<char>>)
    requires
        a.finite(),
        b.finite(),
        a.len() <= usize::MAX,
        b.len() <= usize::MAX,
    ensures
        a.len() > 0 && b.len() > 0 ==> dedup_index::jaccard(a, b).numerator == a.intersect(b).len()
            && dedup_index::jaccard(a, b).denominator == a.union(b).len(),
        a.len() == 0 && b.len() == 0 ==> dedup_index::jaccard(a, b).numerator
            == dedup_index::jaccard(a, b).denominator,
        a.len() == 0 && b.len() > 0 || a.len() > 0 && b.len() == 0 ==> dedup_index::jaccard(
            a,
            b,
        ).numerator == 0,
        dedup_index::jaccard(a, b).denominator > 0,
{
    collections::lemma_union_size(a, b);
    let r = if a.len() == 0 && b.len() == 0 {
        Ratio { numerator: 1, denominator: 1 }
    } else if a.len() == 0 || b.len() == 0 {
        Ratio { numerator: 0, denominator: 1 }
    } else {
        Ratio {
            numerator: a.intersect(b).len() as usize,
            denominator: a.union(b).len() as u128,
        }
    };
    assert(dedup_index::is_jaccard(a, b, r));
}

/// A fraction reaches a number of hundredths where a hundred times its numerator is at least that
/// many times its denominator, and exceeds another where it is the greater number.
pub proof fn law_fractions_compare_as_numbers(a: Ratio, b: Ratio, percent: nat)
    ensures
        a.reaches(percent) <==> 100 * a.numerator >= percent * a.denominator,
        a.exceeds(b) <==> a.numerator * b.denominator > b.numerator * a.denominator,
{
    let (an, ad) = (a.numerator as nat, a.denominator as nat);
    let (bn, bd) = (b.numerator as nat, b.denominator as nat);
    assert(bd * an == an * bd) by (nonlinear_arith);
    assert(ad * bn == bn * ad) by (nonlinear_arith);
    assert(ad * percent == percent * ad) by (nonlinear_arith);
}

/// Holds where two names have the same band at some position.
pub open spec fn share_a_band(a: Seq<char>, b: Seq<char>) -> bool {
    exists|k: int|
        0 <= k < dedup_index::name_bands(a).len() && k < dedup_index::name_bands(b).len()
            && #[trigger] dedup_index::name_bands(a)[k] == dedup_index::name_bands(b)[k]
}

/// Holds where the entity at `i` is the last with its identifier.
pub open spec fn is_last_of_its_kind(nodes: Seq<EntityNodeView>, i: int) -> bool {
    &&& 0 <= i < nodes.len()
    &&& forall|j: int| i < j < nodes.len() ==> #[trigger] nodes[j].uuid != nodes[i].uuid
}

/// The entity that is found under an identifier is the last that has it. Nothing is found where none
/// has it.
pub proof fn law_last_of_an_identifier_is_found(nodes: Seq<EntityNodeView>, uuid: Seq<char>)
    ensures
        dedup_index::last_with_uuid(nodes, uuid) matches Some(n) ==> exists|i: int|
            is_last_of_its_kind(nodes, i) && #[trigger] nodes[i] == n && n.uuid == uuid,
        dedup_index::last_with_uuid(nodes, uuid) is None <==> forall|i: int|
            0 <= i < nodes.len() ==> #[trigger] nodes[i].uuid != uuid,
        forall|i: int|
            is_last_of_its_kind(nodes, i) && #[trigger] nodes[i].uuid == uuid
                ==> dedup_index::last_with_uuid(nodes, uuid) == Some(nodes[i]),
    decreases nodes.len(),
{
    if nodes.len() > 0 {
        let init = nodes.drop_last();
        let n = nodes.len() - 1;
        assert(nodes[n] == nodes.last());
        law_last_of_an_identifier_is_found(init, uuid);
        if nodes.last().uuid == uuid {
            assert(is_last_of_its_kind(nodes, n));
            assert forall|i: int|
                is_last_of_its_kind(nodes, i) && #[trigger] nodes[i].uuid == uuid implies i
                == n by {
                if i < n {
                    assert(nodes[n].uuid != nodes[i].uuid);
                }
            }
        } else {
            if let Some(found) = dedup_index::last_with_uuid(init, uuid) {
                let i = choose|i: int|
                    is_last_of_its_kind(init, i) && #[trigger] init[i] == found && found.uuid
                        == uuid;
                assert(nodes[i] == found);
                assert forall|j: int| i < j < nodes.len() implies #[trigger] nodes[j].uuid
                    != nodes[i].uuid by {
                    if j < n {
                        assert(init[j] == nodes[j]);
                    }
                }
                assert(is_last_of_its_kind(nodes, i));
            } else {
                assert forall|i: int| 0 <= i < nodes.len() implies #[trigger] nodes[i].uuid
                    != uuid by {
                    if i < n {
                        assert(init[i] == nodes[i]);
                    }
                }
            }
            assert forall|i: int|
                is_last_of_its_kind(nodes, i) && #[trigger] nodes[i].uuid == uuid implies
                dedup_index::last_with_uuid(nodes, uuid) == Some(nodes[i]) by {
                assert(init[i] == nodes[i]);
                assert forall|j: int| i < j < init.len() implies #[trigger] init[j].uuid
                    != init[i].uuid by {
                    assert(init[j] == nodes[j]);
                }
                assert(is_last_of_its_kind(init, i));
                assert(init[i].uuid == uuid);
            }
        }
    }
}

proof fn lemma_in_bucket(nodes: Seq<EntityNodeView>, index: int, band: Seq<u64>, uuid: Seq<char>)
    ensures
        dedup_index::nodes_in_bucket(nodes, index, band).contains(uuid) <==> exists|j: int|
            0 <= j < nodes.len() && #[trigger] nodes[j].uuid == uuid && 0 <= index
                < dedup_index::name_bands(nodes[j].name).len() && dedup_index::name_bands(
                nodes[j].name,
            )[index] == band,
    decreases nodes.len(),
{
    let all = dedup_index::nodes_in_bucket(nodes, index, band);
    if nodes.len() > 0 {
        let init = nodes.drop_last();
        let before = dedup_index::nodes_in_bucket(init, index, band);
        lemma_in_bucket(init, index, band, uuid);
        assert(nodes[nodes.len() - 1] == nodes.last());
        if before.contains(uuid) {
            let k = choose|k: int| 0 <= k < before.len() && before[k] == uuid;
            assert(all[k] == uuid);
            let j = choose|j: int|
                0 <= j < init.len() && #[trigger] init[j].uuid == uuid && 0 <= index
                    < dedup_index::name_bands(init[j].name).len() && dedup_index::name_bands(
                    init[j].name,
                )[index] == band;
            assert(nodes[j] == init[j]);
        }
        if all.contains(uuid) {
            let k = choose|k: int| 0 <= k < all.len() && all[k] == uuid;
            if k < before.len() {
                assert(before[k] == uuid);
            }
        }
        let own = dedup_index::name_bands(nodes.last().name);
        if nodes.last().uuid == uuid && 0 <= index < own.len() && own[index] == band {
            assert(all[before.len() as int] == uuid);
        }
        if exists|j: int|
            0 <= j < nodes.len() && #[trigger] nodes[j].uuid == uuid && 0 <= index
                < dedup_index::name_bands(nodes[j].name).len() && dedup_index::name_bands(
                nodes[j].name,
            )[index] == band {
            let j = choose|j: int|
                0 <= j < nodes.len() && #[trigger] nodes[j].uuid == uuid && 0 <= index
                    < dedup_index::name_bands(nodes[j].name).len() && dedup_index::name_bands(
                    nodes[j].name,
                )[index] == band;
            if j < init.len() {
                assert(init[j].uuid == uuid);
            }
        }
    }
}

proof fn lemma_sharing(nodes: Seq<EntityNodeView>, own: Seq<Seq<u64>>, k: nat, uuid: Seq<char>)
    requires
        k <= own.len(),
    ensures
        ({
            let c = dedup_index::candidates_among(nodes);
            let set = dedup_index::sharing_a_band(c, own, k);
            &&& set.finite()
            &&& set.contains(uuid) <==> exists|j: int, b: int|
                0 <= j < nodes.len() && 0 <= b < k && b < dedup_index::name_bands(
                    nodes[j].name,
                ).len() && #[trigger] nodes[j].uuid == uuid && dedup_index::name_bands(
                    nodes[j].name,
                )[b] == #[trigger] own[b]
        }),
    decreases k,
{
    let c = dedup_index::candidates_among(nodes);
    if k > 0 {
        lemma_sharing(nodes, own, (k - 1) as nat, uuid);
        lemma_in_bucket(nodes, k - 1, own[k - 1], uuid);
        let bucket = dedup_index::nodes_in_bucket(nodes, k - 1, own[k - 1]);
        vstd::seq_lib::seq_to_set_is_finite(bucket);
        assert((c.in_bucket)(k - 1, own[k - 1]) == bucket);
    }
}

/// A set of identifiers that is not empty has a most similar one.
proof fn lemma_most_similar_exists(
    c: Candidates,
    own: Set<Seq<char>>,
    uuids: Set<Seq<char>>,
    a: Seq<char>,
) -> (best: Seq<char>)
    requires
        uuids.finite(),
        uuids.contains(a),
        forall|u: Seq<char>|
            uuids.contains(u) ==> (#[trigger] dedup_index::similarity(c, own, u)).denominator > 0,
    ensures
        dedup_index::is_most_similar(c, own, uuids, best),
    decreases uuids.len(),
{
    let rest = uuids.remove(a);
    let sa = dedup_index::similarity(c, own, a);
    text::lemma_str_lt_irreflexive(a);
    assert(!sa.exceeds(sa)) by (nonlinear_arith);
    if rest.len() == 0 {
        assert forall|v: Seq<char>| #[trigger] uuids.contains(v) implies v == a by {
            assert(v == a || rest.contains(v));
        }
        a
    } else {
        let first = rest.choose();
        assert(rest.contains(first));
        let b = lemma_most_similar_exists(c, own, rest, first);
        let sb = dedup_index::similarity(c, own, b);
        text::lemma_str_lt_total(a, b);
        if sa.exceeds(sb) {
            assert forall|v: Seq<char>| #[trigger] uuids.contains(v) && v != a implies sa.exceeds(
                dedup_index::similarity(c, own, v),
            ) && !dedup_index::similarity(c, own, v).exceeds(sa) by {
                assert(rest.contains(v));
                let sv = dedup_index::similarity(c, own, v);
                dedup_index::lemma_exceeds_transitive(sa, sb, sv);
                assert(!sv.exceeds(sa)) by (nonlinear_arith)
                    requires
                        sa.exceeds(sv),
                ;
            }
            a
        } else if !sb.exceeds(sa) && text::str_lt(a, b) {
            assert forall|v: Seq<char>| #[trigger] uuids.contains(v) && v != a implies {
                &&& !dedup_index::similarity(c, own, v).exceeds(sa)
                &&& text::str_lt(v, a) ==> sa.exceeds(dedup_index::similarity(c, own, v))
            } by {
                assert(rest.contains(v));
                let sv = dedup_index::similarity(c, own, v);
                dedup_index::lemma_exceeds_transitive(sv, sb, sa);
                dedup_index::lemma_exceeds_transitive(sb, sa, sv);
                if text::str_lt(v, a) {
                    text::lemma_str_lt_transitive(v, a, b);
                }
            }
            a
        } else {
            assert forall|v: Seq<char>| #[trigger] uuids.contains(v) implies {
                &&& !dedup_index::similarity(c, own, v).exceeds(sb)
                &&& text::str_lt(v, b) ==> sb.exceeds(dedup_index::similarity(c, own, v))
            } by {
                if v != a {
                    assert(rest.contains(v));
                } else if text::str_lt(a, b) {
                    assert(sb.exceeds(sa));
                }
            }
            assert(uuids.contains(b));
            b
        }
    }
}

/// Holds where the shingles of every name can be counted.
pub open spec fn countable(nodes: Seq<EntityNodeView>, name: Seq<char>) -> bool {
    &&& shingles_of(name).len() <= usize::MAX
    &&& forall|i: int|
        0 <= i < nodes.len() ==> shingles_of(#[trigger] nodes[i].name).len() <= usize::MAX
}

proof fn lemma_similarity_of(nodes: Seq<EntityNodeView>, name: Seq<char>, u: Seq<char>)
    requires
        countable(nodes, name),
    ensures
        dedup_index::similarity(
            dedup_index::candidates_among(nodes),
            shingles_of(name),
            u,
        ).denominator > 0,
{
    law_last_of_an_identifier_is_found(nodes, u);
    lemma_shingles_are_finite(name);
    match dedup_index::last_with_uuid(nodes, u) {
        Some(n) => {
            lemma_shingles_are_finite(n.name);
            law_similarity_is_the_common_share(shingles_of(name), shingles_of(n.name));
        },
        None => {
            law_similarity_is_the_common_share(shingles_of(name), Set::empty());
        },
    }
}

proof fn lemma_band_means_shingles(name: Seq<char>)
    requires
        dedup_index::name_bands(name).len() > 0,
    ensures
        shingles_of(name).len() > 0,
{
    lemma_shingles_are_finite(name);
    let set = shingles_of(name);
    if set.len() == 0 {
        assert(set =~= Set::<Seq<char>>::empty());
        assert(dedup_helpers::signature(set).len() == 0);
    }
}

/// What approximate matching finds for a specific name is the last entity of an identifier under
/// which some entity shares a band with the name; nine tenths of the shingles of either are common
/// to both, and no other entity that could have been found shares a larger part.
pub proof fn law_approximate_match_is_the_most_similar(
    nodes: Seq<EntityNodeView>,
    name: Seq<char>,
    rival: int,
    near: int,
)
    requires
        countable(nodes, name),
    ensures
        dedup_index::fuzzy_match(dedup_index::candidates_among(nodes), name) matches Some(found) ==> {
            let own = shingles_of(name);
            let its = shingles_of(found.name);
            &&& entropy::high_entropy(dedup_helpers::fuzzy_name(name))
            &&& exists|i: int| is_last_of_its_kind(nodes, i) && #[trigger] nodes[i] == found
            &&& exists|j: int|
                0 <= j < nodes.len() && #[trigger] nodes[j].uuid == found.uuid && share_a_band(
                    name,
                    nodes[j].name,
                )
            &&& 100 * own.intersect(its).len() >= 90 * own.union(its).len()
            &&& is_last_of_its_kind(nodes, rival) && 0 <= near < nodes.len() && nodes[near].uuid
                == nodes[rival].uuid && share_a_band(name, nodes[near].name) ==> {
                let other = shingles_of(nodes[rival].name);
                own.intersect(other).len() * own.union(its).len() <= own.intersect(its).len()
                    * own.union(other).len()
            }
        },
{
    let c = dedup_index::candidates_among(nodes);
    if let Some(found) = dedup_index::fuzzy_match(c, name) {
        let own = shingles_of(name);
        let its = shingles_of(found.name);
        let bands = dedup_index::name_bands(name);
        let uuids = dedup_index::sharing_a_band(c, bands, bands.len());
        let best = choose|u: Seq<char>| dedup_index::is_most_similar(c, own, uuids, u);
        lemma_sharing(nodes, bands, bands.len(), best);
        law_last_of_an_identifier_is_found(nodes, best);
        assert(dedup_index::last_with_uuid(nodes, best) == Some(found));
        let (j, b) = choose|j: int, b: int|
            0 <= j < nodes.len() && 0 <= b < bands.len() && b < dedup_index::name_bands(
                nodes[j].name,
            ).len() && #[trigger] nodes[j].uuid == best && dedup_index::name_bands(
                nodes[j].name,
            )[b] == #[trigger] bands[b];
        assert(share_a_band(name, nodes[j].name)) by {
            assert(dedup_index::name_bands(name)[b] == dedup_index::name_bands(nodes[j].name)[b]);
        }
        assert(nodes[j].uuid == found.uuid);
        lemma_shingles_are_finite(name);
        lemma_shingles_are_finite(found.name);
        lemma_band_means_shingles(name);
        law_similarity_is_the_common_share(own, its);
        let s = dedup_index::similarity(c, own, best);
        assert(s == dedup_index::jaccard(own, its));
        law_fractions_compare_as_numbers(s, s, 90);
        assert(its.len() > 0);
        if is_last_of_its_kind(nodes, rival) && 0 <= near < nodes.len() && nodes[near].uuid
            == nodes[rival].uuid && share_a_band(name, nodes[near].name) {
            let v = nodes[rival].uuid;
            let other = shingles_of(nodes[rival].name);
            lemma_sharing(nodes, bands, bands.len(), v);
            let k = choose|k: int|
                0 <= k < bands.len() && k < dedup_index::name_bands(nodes[near].name).len()
                    && #[trigger] dedup_index::name_bands(name)[k] == dedup_index::name_bands(
                    nodes[near].name,
                )[k];
            assert(nodes[near].uuid == v && dedup_index::name_bands(nodes[near].name)[k]
                == bands[k]);
            assert(uuids.contains(v));
            law_last_of_an_identifier_is_found(nodes, v);
            assert(nodes[rival].uuid == v);
            lemma_shingles_are_finite(nodes[rival].name);
            law_similarity_is_the_common_share(own, other);
            let t = dedup_index::similarity(c, own, v);
            assert(t == dedup_index::jaccard(own, other));
            law_fractions_compare_as_numbers(t, s, 90);
            assert(!t.exceeds(s));
            if other.len() == 0 {
                assert(other =~= Set::<Seq<char>>::empty());
                assert(own.intersect(other) =~= Set::<Seq<char>>::empty());
                assert(0 * own.union(its).len() == 0) by (nonlinear_arith);
                assert(own.intersect(its).len() * own.union(other).len() >= 0) by (nonlinear_arith);
            }
        }
    }
}

/// Approximate matching finds something for a specific name wherever some entity shares a band with
/// it and the last entity with that identifier has nine tenths of the shingles of either in common
/// with it.
pub proof fn law_similar_entity_is_found(
    nodes: Seq<EntityNodeView>,
    name: Seq<char>,
    near: int,
    last: int,
)
    requires
        countable(nodes, name),
        entropy::high_entropy(dedup_helpers::fuzzy_name(name)),
        0 <= near < nodes.len(),
        share_a_band(name, nodes[near].name),
        is_last_of_its_kind(nodes, last),
        nodes[last].uuid == nodes[near].uuid,
        100 * shingles_of(name).intersect(shingles_of(nodes[last].name)).len() >= 90 * shingles_of(
            name,
        ).union(shingles_of(nodes[last].name)).len(),
    ensures
        dedup_index::fuzzy_match(dedup_index::candidates_among(nodes), name) is Some,
{
    let c = dedup_index::candidates_among(nodes);
    let own = shingles_of(name);
    let its = shingles_of(nodes[last].name);
    let bands = dedup_index::name_bands(name);
    let uuids = dedup_index::sharing_a_band(c, bands, bands.len());
    let v = nodes[last].uuid;
    lemma_sharing(nodes, bands, bands.len(), v);
    let k = choose|k: int|
        0 <= k < bands.len() && k < dedup_index::name_bands(nodes[near].name).len()
            && #[trigger] dedup_index::name_bands(name)[k] == dedup_index::name_bands(
            nodes[near].name,
        )[k];
    assert(nodes[near].uuid == v && dedup_index::name_bands(nodes[near].name)[k] == bands[k]);
    assert(uuids.contains(v));
    assert forall|u: Seq<char>| uuids.contains(u) implies (#[trigger] dedup_index::similarity(
        c,
        own,
        u,
    )).denominator > 0 by {
        lemma_similarity_of(nodes, name, u);
    }
    let found = lemma_most_similar_exists(c, own, uuids, v);
    let best = choose|u: Seq<char>| dedup_index::is_most_similar(c, own, uuids, u);
    dedup_index::lemma_most_similar_unique(c, own, uuids, found, best);
    law_last_of_an_identifier_is_found(nodes, v);
    assert(nodes[last].uuid == v);
    lemma_shingles_are_finite(name);
    lemma_shingles_are_finite(nodes[last].name);
    lemma_band_means_shingles(name);
    law_similarity_is_the_common_share(own, its);
    let t = dedup_index::similarity(c, own, v);
    let s = dedup_index::similarity(c, own, best);
    assert(t == dedup_index::jaccard(own, its));
    law_fractions_compare_as_numbers(t, s, 90);
    law_fractions_compare_as_numbers(s, t, 90);
    lemma_similarity_of(nodes, name, best);
    if its.len() == 0 {
        assert(its =~= Set::<Seq<char>>::empty());
        assert(own.intersect(its) =~= Set::<Seq<char>>::empty());
        assert(own.union(its) =~= own);
    }
    assert(t.reaches(90));
    assert(!t.exceeds(s));
    assert(s.reaches(90)) by {
        let (tn, td) = (t.numerator as int, t.denominator as int);
        let (sn, sd) = (s.numerator as int, s.denominator as int);
        assert(100 * sn >= 90 * sd) by (nonlinear_arith)
            requires
                100 * tn >= 90 * td,
                tn * sd <= sn * td,
                td > 0,
                sd > 0,
        ;
    }
    lemma_sharing(nodes, bands, bands.len(), best);
    law_last_of_an_identifier_is_found(nodes, best);
    let (j, b) = choose|j: int, b: int|
        0 <= j < nodes.len() && 0 <= b < bands.len() && b < dedup_index::name_bands(
            nodes[j].name,
        ).len() && #[trigger] nodes[j].uuid == best && dedup_index::name_bands(nodes[j].name)[b]
            == #[trigger] bands[b];
    assert(nodes[j].uuid == best);
}

/// Holds for the lowercase letters of ASCII, the digits, the apostrophe and the blank.
pub open spec fn stays_in_names(c: char) -> bool {
    'a' <= c <= 'z' || '0' <= c <= '9' || c == '\'' || c == ' '
}

/// A fuzzy form has lowercase letters, digits, apostrophes and blanks only, and a collapsed text of
/// these is its own fuzzy form. Any other character counts as a blank.
pub proof fn law_fuzzy_form_keeps_letters_and_digits(s: Seq<char>, i: int, c: char)
    requires
        0 <= i < s.len(),
        !stays_in_names(c),
    ensures
        forall|k: int|
            0 <= k < dedup_helpers::fuzzy_form(s).len() ==> stays_in_names(
                #[trigger] dedup_helpers::fuzzy_form(s)[k],
            ),
        (forall|k: int| 0 <= k < s.len() ==> stays_in_names(#[trigger] s[k])) && text::collapsed(s)
            == s ==> dedup_helpers::fuzzy_form(s) == s,
        dedup_helpers::fuzzy_form(s.update(i, c)) == dedup_helpers::fuzzy_form(s.update(i, ' ')),
{
    dedup_helpers::law_fuzzy_form_stays(s);
    let f = dedup_helpers::fuzzy_form(s);
    assert forall|k: int| 0 <= k < f.len() implies stays_in_names(#[trigger] f[k]) by {
        assert(dedup_helpers::is_fuzzy_char(f[k]));
    }
    if (forall|k: int| 0 <= k < s.len() ==> stays_in_names(#[trigger] s[k])) && text::collapsed(s)
        == s {
        assert(dedup_helpers::blanked(s) =~= s) by {
            assert forall|k: int| 0 <= k < s.len() implies dedup_helpers::blanked(s)[k]
                == s[k] by {
                assert(stays_in_names(s[k]));
            }
        }
    }
    assert(dedup_helpers::blanked(s.update(i, c)) =~= dedup_helpers::blanked(s.update(i, ' ')));
}

/// The labels other than `Entity` are kept in order.
pub proof fn law_specific_labels_are_left(labels: Seq<Seq<char>>) -> (at: Seq<int>)
    ensures
        selection::selects(
            labels,
            dedup_index::specific_labels(labels),
            at,
            |i: int, l: Seq<char>| l != "Entity"@,
            |l: Seq<char>| l,
        ),
    decreases labels.len(),
{
    let keep = |i: int, l: Seq<char>| l != "Entity"@;
    let make = |l: Seq<char>| l;
    if labels.len() == 0 {
        Seq::empty()
    } else {
        let init = labels.drop_last();
        let at = law_specific_labels_are_left(init);
        selection::lemma_selects_next(
            labels,
            dedup_index::specific_labels(init),
            at,
            keep,
            keep,
            make,
        );
        if labels.last() == "Entity"@ {
            at
        } else {
            at.push(labels.len() - 1)
        }
    }
}

/// A known entity without a label but `Entity` takes over every label of a new one that has more.
/// With another label, or where the new one has none, it keeps its labels.
pub proof fn law_specific_type_is_taken_over(
    extracted: Seq<Seq<char>>,
    resolved: Seq<Seq<char>>,
    label: Seq<char>,
)
    ensures
        (forall|i: int| 0 <= i < resolved.len() ==> #[trigger] resolved[i] == "Entity"@)
            && extracted.contains(label) && label != "Entity"@ ==> {
            let labels = dedup_index::promoted_labels(extracted, resolved);
            &&& labels.len() > 0
            &&& labels[0] == "Entity"@
            &&& labels.contains(label)
        },
        (exists|i: int| 0 <= i < resolved.len() && #[trigger] resolved[i] != "Entity"@)
            ==> dedup_index::promoted_labels(extracted, resolved) == resolved,
        (forall|i: int| 0 <= i < extracted.len() ==> #[trigger] extracted[i] == "Entity"@)
            ==> dedup_index::promoted_labels(extracted, resolved) == resolved,
{
    let known = law_specific_labels_are_left(resolved);
    let new = law_specific_labels_are_left(extracted);
    let more = dedup_index::specific_labels(extracted);
    let all = seq!["Entity"@] + resolved + more;
    if dedup_index::specific_labels(resolved).len() > 0 {
        assert(resolved[known[0]] != "Entity"@);
    }
    if more.len() > 0 {
        assert(extracted[new[0]] != "Entity"@);
    }
    if exists|i: int| 0 <= i < resolved.len() && #[trigger] resolved[i] != "Entity"@ {
        let i = choose|i: int| 0 <= i < resolved.len() && #[trigger] resolved[i] != "Entity"@;
        assert(known.contains(i));
    }
    if (forall|i: int| 0 <= i < resolved.len() ==> #[trigger] resolved[i] == "Entity"@)
        && extracted.contains(label) && label != "Entity"@ {
        let i = choose|i: int| 0 <= i < extracted.len() && extracted[i] == label;
        assert(new.contains(i));
        let k = choose|k: int| 0 <= k < new.len() && new[k] == i;
        assert(more[k] == label);
        assert(all[1 + resolved.len() + k] == label);
        dedup_index::lemma_first_seen_keeps(all, label);
        let at = laws::law_first_occurrences_are_left(all);
        assert(all[0] == "Entity"@);
        assert(at.contains(0));
        let z = choose|z: int| 0 <= z < at.len() && at[z] == 0;
        if z > 0 {
            assert(at[0] < at[z]);
        }
        assert(dedup_index::first_seen(all)[0] == all[at[0]]);
    }
}

/// A new entity without a namesake among the known ones is what approximate matching finds for its
/// name, up to the labels, and nothing where that finds nothing.
pub proof fn law_nameless_entity_is_matched_approximately(
    nodes: Seq<EntityNodeView>,
    node: EntityNodeView,
)
    requires
        forall|i: int|
            0 <= i < nodes.len() ==> helpers::normal_form(#[trigger] nodes[i].name)
                != helpers::normal_form(node.name),
    ensures
        dedup_index::similar_entity(dedup_index::candidates_among(nodes), node) == (
        match dedup_index::fuzzy_match(dedup_index::candidates_among(nodes), node.name) {
            Some(found) => Some(dedup_index::promoted(node, found)),
            None => None,
        }),
{
    let normal = helpers::normal_form(node.name);
    let same = dedup_index::nodes_named(nodes, normal);
    if same.len() > 0 {
        dedup_index::lemma_named_is_known(nodes, normal, 0);
        let k = choose|k: int| 0 <= k < nodes.len() && nodes[k] == same[0];
        assert(helpers::normal_form(nodes[k].name) == normal);
    }
}

} // verus!
