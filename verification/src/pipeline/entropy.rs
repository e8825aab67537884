//! How specific a name is.
use crate::bignum::BigNat;
use crate::text::{self, chars_of, split_words};
use vstd::prelude::*;

verus! {

/// A name of fewer characters than this has to have several words.
pub const MIN_NAME_LENGTH: usize = 6;

/// The number of words that lets a short name pass.
pub const MIN_TOKEN_COUNT: usize = 2;

/// How often `c` occurs in `s`.
pub open spec fn occurrences(s: Seq<char>, c: char) -> nat
    decreases s.len(),
{
    if s.len() == 0 {
        0
    } else {
        occurrences(s.drop_last(), c) + (if s.last() == c {
            1nat
        } else {
            0nat
        })
    }
}

/// The characters of `s` other than the blank.
pub open spec fn without_blanks(s: Seq<char>) -> Seq<char>
    decreases s.len(),
{
    if s.len() == 0 {
        Seq::empty()
    } else if s.last() == ' ' {
        without_blanks(s.drop_last())
    } else {
        without_blanks(s.drop_last()).push(s.last())
    }
}

/// `t * t` taken `k` times as a factor.
pub open spec fn length_product(t: nat, k: nat) -> nat
    decreases k,
{
    if k == 0 {
        1
    } else {
        length_product(t, (k - 1) as nat) * t * t
    }
}

/// Over the first `k` characters of `s`, the product of `8 * n * n`, where `n` is how often
/// the character occurs in `s`.
pub open spec fn repetition_product(s: Seq<char>, k: nat) -> nat
    decreases k,
{
    if k == 0 {
        1
    } else {
        let n = occurrences(s, s[k - 1]);
        repetition_product(s, (k - 1) as nat) * 8 * n * n
    }
}

/// Holds where the Shannon entropy of the characters of `s` is at least one and a half bits.
///
/// With `t` characters of which the i-th occurs `n_i` times, the entropy is the mean of
/// `log2(t / n_i)`. It is at least 3/2 exactly where the product of `t * t` over all
/// characters is at least that of `8 * n_i * n_i`.
pub open spec fn entropy_at_least_three_halves(s: Seq<char>) -> bool {
    s.len() > 0 && length_product(s.len(), s.len()) >= repetition_product(s, s.len())
}

/// Holds where a name is specific enough for approximate matching: not both short and a
/// single word, and with an entropy of at least one and a half bits.
pub open spec fn high_entropy(name: Seq<char>) -> bool {
    &&& !(name.len() < MIN_NAME_LENGTH && text::words(name).len() < MIN_TOKEN_COUNT)
    &&& entropy_at_least_three_halves(without_blanks(name))
}

/// The characters other than the blank.
pub fn drop_blanks(s: &str) -> (r: Vec<char>)
    ensures
        r@ == without_blanks(s@),
{
    let chars = chars_of(s);
    let mut out: Vec<char> = Vec::new();
    let mut i: usize = 0;
    while i < chars.len()
        invariant
            i <= chars@.len(),
            chars@ == s@,
            out@ == without_blanks(chars@.take(i as int)),
        decreases chars.len() - i,
    {
        assert(chars@.take(i as int + 1).drop_last() =~= chars@.take(i as int));
        if chars[i] != ' ' {
            out.push(chars[i]);
        }
        i += 1;
    }
    assert(chars@.take(chars@.len() as int) =~= s@);
    out
}

fn count_char(s: &Vec<char>, c: char) -> (r: usize)
    ensures
        r == occurrences(s@, c),
        r <= s@.len(),
{
    let mut n: usize = 0;
    let mut i: usize = 0;
    while i < s.len()
        invariant
            n <= i <= s@.len(),
            n == occurrences(s@.take(i as int), c),
        decreases s.len() - i,
    {
        assert(s@.take(i as int + 1).drop_last() =~= s@.take(i as int));
        if s[i] == c {
            n += 1;
        }
        i += 1;
    }
    assert(s@.take(s@.len() as int) =~= s@);
    n
}

/// Tells whether the characters have an entropy of at least one and a half bits.
fn is_varied(s: &Vec<char>) -> (r: bool)
    ensures
        r == entropy_at_least_three_halves(s@),
{
    if s.len() == 0 {
        return false;
    }
    let t: u64 = s.len() as u64;
    let mut left = BigNat::one();
    let mut right = BigNat::one();
    let mut k: usize = 0;
    while k < s.len()
        invariant
            k <= s@.len(),
            t == s@.len(),
            left@ == length_product(s@.len(), k as nat),
            right@ == repetition_product(s@, k as nat),
        decreases s.len() - k,
    {
        let n: u64 = count_char(s, s[k]) as u64;
        left = left.times(t).times(t);
        right = right.times(8).times(n).times(n);
        k += 1;
    }
    left.at_least(&right)
}

/// Tells whether a name is specific enough for approximate matching.
pub fn has_high_entropy(normalized_name: &str) -> (r: bool)
    ensures
        r == high_entropy(normalized_name@),
{
    let tokens = split_words(normalized_name);
    proof {
        assert(text::views(tokens@).len() == tokens@.len());
    }
    let length = chars_of(normalized_name).len();
    if length < MIN_NAME_LENGTH && tokens.len() < MIN_TOKEN_COUNT {
        return false;
    }
    let chars = drop_blanks(normalized_name);
    is_varied(&chars)
}

} // verus!
