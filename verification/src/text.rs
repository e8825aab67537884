//! Strings as sequences of characters: white space, words, trimming, joining,
//! ordering and decimal numerals.
use vstd::prelude::*;
use vstd::string::StringSliceAdditionalSpecFns;

verus! {

/// The characters with the Unicode `White_Space` property.
pub open spec fn is_white_space(c: char) -> bool {
    let n = c as u32;
    ||| 0x09 <= n <= 0x0d
    ||| n == 0x20
    ||| n == 0x85
    ||| n == 0xa0
    ||| n == 0x1680
    ||| 0x2000 <= n <= 0x200a
    ||| n == 0x2028
    ||| n == 0x2029
    ||| n == 0x202f
    ||| n == 0x205f
    ||| n == 0x3000
}

/// Tells whether `c` is white space.
pub fn is_white(c: char) -> (r: bool)
    ensures
        r == is_white_space(c),
{
    let n: u32 = c as u32;
    (0x09 <= n && n <= 0x0d) || n == 0x20 || n == 0x85 || n == 0xa0 || n == 0x1680 || (0x2000 <= n
        && n <= 0x200a) || n == 0x2028 || n == 0x2029 || n == 0x202f || n == 0x205f || n == 0x3000
}

/// The views of a sequence of strings.
pub open spec fn views(strings: Seq<String>) -> Seq<Seq<char>> {
    strings.map_values(|s: String| s@)
}

/// `s` without its leading white space.
pub open spec fn trim_start(s: Seq<char>) -> Seq<char>
    decreases s.len(),
{
    if s.len() > 0 && is_white_space(s[0]) {
        trim_start(s.skip(1))
    } else {
        s
    }
}

/// `s` without its trailing white space.
pub open spec fn trim_end(s: Seq<char>) -> Seq<char>
    decreases s.len(),
{
    if s.len() > 0 && is_white_space(s.last()) {
        trim_end(s.drop_last())
    } else {
        s
    }
}

/// `s` without leading and trailing white space.
pub open spec fn trim(s: Seq<char>) -> Seq<char> {
    trim_end(trim_start(s))
}

/// Holds where every character is white space.
pub open spec fn all_white(s: Seq<char>) -> bool {
    forall|i: int| 0 <= i < s.len() ==> is_white_space(#[trigger] s[i])
}

/// The maximal runs of characters that are not white space, in order.
pub open spec fn words(s: Seq<char>) -> Seq<Seq<char>>
    decreases s.len(),
{
    if s.len() == 0 {
        Seq::empty()
    } else {
        let before = words(s.drop_last());
        let c = s.last();
        if is_white_space(c) {
            before
        } else if s.len() >= 2 && !is_white_space(s[s.len() - 2]) {
            before.drop_last().push(before.last().push(c))
        } else {
            before.push(seq![c])
        }
    }
}

/// The parts one after the other, with `sep` between neighbours.
pub open spec fn join(parts: Seq<Seq<char>>, sep: Seq<char>) -> Seq<char>
    decreases parts.len(),
{
    if parts.len() == 0 {
        Seq::empty()
    } else if parts.len() == 1 {
        parts[0]
    } else {
        join(parts.drop_last(), sep) + sep + parts.last()
    }
}

/// `s` with every run of white space collapsed to one blank and none at its ends.
pub open spec fn collapsed(s: Seq<char>) -> Seq<char> {
    join(words(s), seq![' '])
}

/// Holds where white space stands neither at an end of `s` nor beside other white space, and is
/// always a blank.
pub open spec fn is_collapsed(s: Seq<char>) -> bool {
    &&& s.len() > 0 ==> !is_white_space(s[0]) && !is_white_space(s.last())
    &&& forall|i: int| 0 <= i < s.len() && is_white_space(#[trigger] s[i]) ==> s[i] == ' '
    &&& forall|i: int, j: int|
        0 <= i < s.len() && j == i + 1 && j < s.len() ==> !(is_white_space(#[trigger] s[i])
            && is_white_space(#[trigger] s[j]))
}

/// Holds where no part is empty or has white space.
pub open spec fn are_words(parts: Seq<Seq<char>>) -> bool {
    forall|i: int| 0 <= i < parts.len() ==> is_word(#[trigger] parts[i])
}

/// Holds where `w` is not empty and has no white space.
pub open spec fn is_word(w: Seq<char>) -> bool {
    &&& w.len() > 0
    &&& forall|k: int| 0 <= k < w.len() ==> !is_white_space(#[trigger] w[k])
}

/// `s` with every occurrence of `from` replaced by `to`.
pub open spec fn replaced(s: Seq<char>, from: char, to: Seq<char>) -> Seq<char>
    decreases s.len(),
{
    if s.len() == 0 {
        Seq::empty()
    } else {
        replaced(s.drop_last(), from, to) + (if s.last() == from {
            to
        } else {
            seq![s.last()]
        })
    }
}

/// The decimal numeral of `n`, without leading zeros.
pub open spec fn decimal(n: nat) -> Seq<char>
    decreases n,
{
    if n < 10 {
        seq![digit_char(n)]
    } else {
        decimal(n / 10).push(digit_char(n % 10))
    }
}

/// The decimal digit with value `d`.
pub open spec fn digit_char(d: nat) -> char {
    (('0' as u32) + d) as char
}

/// The decimal numeral of `n`, with a leading minus sign where `n` is negative.
pub open spec fn signed_decimal(n: int) -> Seq<char> {
    if n < 0 {
        seq!['-'] + decimal((-n) as nat)
    } else {
        decimal(n as nat)
    }
}

/// Lexicographic order on byte sequences.
pub open spec fn bytes_lt(a: Seq<u8>, b: Seq<u8>) -> bool
    decreases a.len(),
{
    if b.len() == 0 {
        false
    } else if a.len() == 0 {
        true
    } else if a[0] != b[0] {
        a[0] < b[0]
    } else {
        bytes_lt(a.skip(1), b.skip(1))
    }
}

/// The order of strings: lexicographic by the bytes of their UTF-8 encoding.
pub open spec fn str_lt(a: Seq<char>, b: Seq<char>) -> bool {
    bytes_lt(vstd::utf8::encode_utf8(a), vstd::utf8::encode_utf8(b))
}

pub proof fn lemma_bytes_lt_irreflexive(a: Seq<u8>)
    ensures
        !bytes_lt(a, a),
    decreases a.len(),
{
    if a.len() > 0 {
        lemma_bytes_lt_irreflexive(a.skip(1));
    }
}

pub proof fn lemma_bytes_lt_transitive(a: Seq<u8>, b: Seq<u8>, c: Seq<u8>)
    requires
        bytes_lt(a, b),
        bytes_lt(b, c),
    ensures
        bytes_lt(a, c),
    decreases a.len(),
{
    if a.len() > 0 && b.len() > 0 && c.len() > 0 && a[0] == b[0] && b[0] == c[0] {
        lemma_bytes_lt_transitive(a.skip(1), b.skip(1), c.skip(1));
    }
}

pub proof fn lemma_bytes_lt_total(a: Seq<u8>, b: Seq<u8>)
    ensures
        bytes_lt(a, b) || bytes_lt(b, a) || a == b,
    decreases a.len(),
{
    if a.len() > 0 && b.len() > 0 && a[0] == b[0] {
        lemma_bytes_lt_total(a.skip(1), b.skip(1));
        if a.skip(1) == b.skip(1) {
            assert(a =~= seq![a[0]] + a.skip(1));
            assert(b =~= seq![b[0]] + b.skip(1));
        }
    } else if a.len() == 0 && b.len() == 0 {
        assert(a =~= b);
    }
}

/// The string order is irreflexive.
pub proof fn lemma_str_lt_irreflexive(a: Seq<char>)
    ensures
        !str_lt(a, a),
{
    lemma_bytes_lt_irreflexive(vstd::utf8::encode_utf8(a));
}

/// The string order is transitive.
pub proof fn lemma_str_lt_transitive(a: Seq<char>, b: Seq<char>, c: Seq<char>)
    requires
        str_lt(a, b),
        str_lt(b, c),
    ensures
        str_lt(a, c),
{
    lemma_bytes_lt_transitive(
        vstd::utf8::encode_utf8(a),
        vstd::utf8::encode_utf8(b),
        vstd::utf8::encode_utf8(c),
    );
}

/// Two different strings are ordered one way or the other.
pub proof fn lemma_str_lt_total(a: Seq<char>, b: Seq<char>)
    ensures
        str_lt(a, b) || str_lt(b, a) || a == b,
{
    lemma_bytes_lt_total(vstd::utf8::encode_utf8(a), vstd::utf8::encode_utf8(b));
    lemma_encode_injective(a, b);
}

pub proof fn lemma_encode_injective(a: Seq<char>, b: Seq<char>)
    ensures
        vstd::utf8::encode_utf8(a) == vstd::utf8::encode_utf8(b) ==> a == b,
{
    vstd::utf8::encode_utf8_decode_utf8(a);
    vstd::utf8::encode_utf8_decode_utf8(b);
}

/// Compares two strings for equality.
pub fn str_eq(a: &str, b: &str) -> (r: bool)
    ensures
        r == (a@ == b@),
{
    proof {
        lemma_encode_injective(a@, b@);
    }
    let x: &[u8] = a.as_bytes();
    let y: &[u8] = b.as_bytes();
    if x.len() != y.len() {
        return false;
    }
    let mut i: usize = 0;
    while i < x.len()
        invariant
            i <= x.len(),
            x.len() == y.len(),
            x@ == vstd::utf8::encode_utf8(a@),
            y@ == vstd::utf8::encode_utf8(b@),
            forall|j: int| 0 <= j < i ==> x@[j] == y@[j],
        decreases x.len() - i,
    {
        if x[i] != y[i] {
            return false;
        }
        i += 1;
    }
    assert(x@ =~= y@);
    true
}

/// Tells whether `a` comes strictly before `b` in the string order.
pub fn str_less(a: &str, b: &str) -> (r: bool)
    ensures
        r == str_lt(a@, b@),
{
    let x: &[u8] = a.as_bytes();
    let y: &[u8] = b.as_bytes();
    let mut i: usize = 0;
    assert(x@.skip(0) =~= x@);
    assert(y@.skip(0) =~= y@);
    while i < x.len() && i < y.len()
        invariant
            i <= x.len(),
            i <= y.len(),
            x@ == vstd::utf8::encode_utf8(a@),
            y@ == vstd::utf8::encode_utf8(b@),
            bytes_lt(x@, y@) == bytes_lt(x@.skip(i as int), y@.skip(i as int)),
        decreases x.len() - i,
    {
        if x[i] != y[i] {
            return x[i] < y[i];
        }
        assert(x@.skip(i as int).skip(1) =~= x@.skip(i as int + 1));
        assert(y@.skip(i as int).skip(1) =~= y@.skip(i as int + 1));
        i += 1;
    }
    i < y.len()
}

/// Appends one character.
pub assume_specification[ String::push ](s: &mut String, c: char)
    ensures
        final(s)@ == old(s)@.push(c),
;

/// The characters of a string.
pub fn chars_of(s: &str) -> (r: Vec<char>)
    ensures
        r@ == s@,
{
    let mut out: Vec<char> = Vec::new();
    for c in it: s.chars()
        invariant
            out@ == s@.take(it.index() as int),
            it.seq() == s@,
    {
        assert(s@.take(it.index() as int + 1) =~= s@.take(it.index() as int).push(c));
        out.push(c);
    }
    assert(s@.take(s@.len() as int) =~= s@);
    out
}

/// The string of the characters from `lo` up to `hi`.
pub fn string_of(chars: &Vec<char>, lo: usize, hi: usize) -> (r: String)
    requires
        lo <= hi <= chars@.len(),
    ensures
        r@ == chars@.subrange(lo as int, hi as int),
{
    let mut out = String::new();
    let mut i: usize = lo;
    assert(chars@.subrange(lo as int, lo as int) =~= Seq::empty());
    while i < hi
        invariant
            lo <= i <= hi <= chars@.len(),
            out@ == chars@.subrange(lo as int, i as int),
        decreases hi - i,
    {
        out.push(chars[i]);
        assert(chars@.subrange(lo as int, i as int).push(chars@[i as int]) =~= chars@.subrange(
            lo as int,
            i as int + 1,
        ));
        i += 1;
    }
    out
}

pub proof fn lemma_trim_start_is_skip(s: Seq<char>, k: int)
    requires
        0 <= k <= s.len(),
        all_white(s.take(k)),
        k < s.len() ==> !is_white_space(s[k]),
    ensures
        trim_start(s) == s.skip(k),
    decreases s.len(),
{
    if k == 0 {
        assert(s.skip(0) =~= s);
    } else {
        assert(is_white_space(s.take(k)[0]));
        let t = s.skip(1);
        assert forall|i: int| 0 <= i < t.take(k - 1).len() implies is_white_space(
            #[trigger] t.take(k - 1)[i],
        ) by {
            assert(s.take(k)[i + 1] == t.take(k - 1)[i]);
        }
        lemma_trim_start_is_skip(t, k - 1);
        assert(t.skip(k - 1) =~= s.skip(k));
    }
}

pub proof fn lemma_trim_end_is_take(s: Seq<char>, k: int)
    requires
        0 <= k <= s.len(),
        all_white(s.skip(k)),
        k > 0 ==> !is_white_space(s[k - 1]),
    ensures
        trim_end(s) == s.take(k),
    decreases s.len(),
{
    if k == s.len() {
        assert(s.take(k) =~= s);
    } else {
        assert(is_white_space(s.skip(k)[s.len() - 1 - k]));
        let t = s.drop_last();
        assert forall|i: int| 0 <= i < t.skip(k).len() implies is_white_space(
            #[trigger] t.skip(k)[i],
        ) by {
            assert(s.skip(k)[i] == t.skip(k)[i]);
        }
        lemma_trim_end_is_take(t, k);
        assert(t.take(k) =~= s.take(k));
    }
}

/// Trimming `s` down to the characters from `lo` to `hi`.
pub proof fn lemma_trim_is_subrange(s: Seq<char>, lo: int, hi: int)
    requires
        0 <= lo <= hi <= s.len(),
        all_white(s.take(lo)),
        all_white(s.skip(hi)),
        lo < hi ==> !is_white_space(s[lo]) && !is_white_space(s[hi - 1]),
        lo == hi ==> hi == s.len(),
    ensures
        trim(s) == s.subrange(lo, hi),
{
    lemma_trim_start_is_skip(s, lo);
    let t = s.skip(lo);
    assert(t.skip(hi - lo) =~= s.skip(hi));
    lemma_trim_end_is_take(t, hi - lo);
    assert(t.take(hi - lo) =~= s.subrange(lo, hi));
}

/// The bounds that are left of the characters from `lo` to `hi` once white space at
/// either end is dropped.
pub fn trim_bounds(chars: &Vec<char>, lo: usize, hi: usize) -> (r: (usize, usize))
    requires
        lo <= hi <= chars@.len(),
    ensures
        lo <= r.0 <= r.1 <= hi,
        chars@.subrange(r.0 as int, r.1 as int) == trim(chars@.subrange(lo as int, hi as int)),
{
    let ghost s = chars@.subrange(lo as int, hi as int);
    let mut a: usize = lo;
    while a < hi && is_white(chars[a])
        invariant
            lo <= a <= hi <= chars@.len(),
            s == chars@.subrange(lo as int, hi as int),
            all_white(s.take(a - lo)),
        decreases hi - a,
    {
        assert forall|i: int| 0 <= i < s.take(a + 1 - lo).len() implies is_white_space(
            #[trigger] s.take(a + 1 - lo)[i],
        ) by {
            if i < a - lo {
                assert(s.take(a - lo)[i] == s.take(a + 1 - lo)[i]);
            }
        }
        a += 1;
    }
    let mut b: usize = hi;
    while b > a && is_white(chars[b - 1])
        invariant
            lo <= a <= b <= hi <= chars@.len(),
            s == chars@.subrange(lo as int, hi as int),
            all_white(s.skip(b - lo)),
            a < hi ==> !is_white_space(chars@[a as int]),
        decreases b,
    {
        assert forall|i: int| 0 <= i < s.skip(b - 1 - lo).len() implies is_white_space(
            #[trigger] s.skip(b - 1 - lo)[i],
        ) by {
            if i > 0 {
                assert(s.skip(b - lo)[i - 1] == s.skip(b - 1 - lo)[i]);
            }
        }
        b -= 1;
    }
    proof {
        if a == b && a < hi {
            // the last step dropped the character at `a`, which is not white space
            assert(is_white_space(s.skip(b - lo)[0]));
            assert(false);
        }
        lemma_trim_is_subrange(s, a - lo, b - lo);
        assert(s.subrange(a - lo, b - lo) =~= chars@.subrange(a as int, b as int));
    }
    (a, b)
}

/// `s` without leading and trailing white space.
pub fn trimmed(s: &str) -> (r: String)
    ensures
        r@ == trim(s@),
{
    let chars = chars_of(s);
    let (a, b) = trim_bounds(&chars, 0, chars.len());
    assert(chars@.subrange(0, chars@.len() as int) =~= s@);
    string_of(&chars, a, b)
}

/// A string is blank exactly where all of it is white space.
pub proof fn lemma_blank(s: Seq<char>)
    ensures
        (trim(s).len() == 0) == all_white(s),
{
    if all_white(s) {
        assert(s.take(s.len() as int) =~= s);
        assert(s.skip(s.len() as int).len() == 0);
        lemma_trim_is_subrange(s, s.len() as int, s.len() as int);
    } else {
        lemma_first_non_white(s, 0);
    }
}

proof fn lemma_first_non_white(s: Seq<char>, k: int)
    requires
        0 <= k <= s.len(),
        all_white(s.take(k)),
        !all_white(s),
    ensures
        trim(s).len() > 0,
    decreases s.len() - k,
{
    if k < s.len() && !is_white_space(s[k]) {
        lemma_trim_start_is_skip(s, k);
        lemma_trim_end_keeps(s.skip(k));
    } else if k < s.len() {
        assert forall|i: int| 0 <= i < s.take(k + 1).len() implies is_white_space(
            #[trigger] s.take(k + 1)[i],
        ) by {
            if i < k {
                assert(s.take(k)[i] == s.take(k + 1)[i]);
            }
        }
        lemma_first_non_white(s, k + 1);
    } else {
        assert(s.take(k) =~= s);
    }
}

proof fn lemma_trim_end_keeps(s: Seq<char>)
    requires
        s.len() > 0,
        !is_white_space(s[0]),
    ensures
        trim_end(s).len() > 0,
    decreases s.len(),
{
    if is_white_space(s.last()) {
        lemma_trim_end_keeps(s.drop_last());
    }
}

/// Tells whether nothing is left of `s` once it is trimmed.
pub fn is_blank(s: &str) -> (r: bool)
    ensures
        r == (trim(s@).len() == 0),
        r == all_white(s@),
{
    proof {
        lemma_blank(s@);
    }
    let chars = chars_of(s);
    let mut i: usize = 0;
    while i < chars.len()
        invariant
            i <= chars.len(),
            chars@ == s@,
            (trim(s@).len() == 0) == all_white(s@),
            forall|j: int| 0 <= j < i ==> is_white_space(#[trigger] chars@[j]),
        decreases chars.len() - i,
    {
        if !is_white(chars[i]) {
            return false;
        }
        i += 1;
    }
    true
}

/// The words of `s`.
pub fn split_words(s: &str) -> (r: Vec<String>)
    ensures
        views(r@) == words(s@),
{
    let chars = chars_of(s);
    let mut out: Vec<String> = Vec::new();
    let mut start: usize = 0;
    let mut i: usize = 0;
    assert(views(out@) =~= words(chars@.take(0)));
    while i < chars.len()
        invariant
            start <= i <= chars.len(),
            chars@ == s@,
            forall|j: int| start <= j < i ==> !is_white_space(#[trigger] chars@[j]),
            start > 0 ==> is_white_space(chars@[start - 1]),
            start == i ==> views(out@) == words(chars@.take(i as int)),
            start < i ==> views(out@).push(chars@.subrange(start as int, i as int)) == words(
                chars@.take(i as int),
            ),
        decreases chars.len() - i,
    {
        let ghost prefix = chars@.take(i as int);
        let ghost next = chars@.take(i as int + 1);
        assert(next.drop_last() =~= prefix);
        if is_white(chars[i]) {
            if start < i {
                let ghost before = out@;
                let word = string_of(&chars, start, i);
                out.push(word);
                assert(views(out@) =~= views(before).push(word@));
            }
            start = i + 1;
        } else {
            if start < i {
                assert(next[next.len() - 2] == chars@[i - 1]);
                let ghost run = chars@.subrange(start as int, i as int);
                assert(views(out@).push(run).drop_last() =~= views(out@));
                assert(run.push(chars@[i as int]) =~= chars@.subrange(start as int, i as int + 1));
            } else {
                proof {
                    if next.len() >= 2 {
                        assert(next[next.len() - 2] == chars@[start - 1]);
                    }
                }
                assert(seq![chars@[i as int]] =~= chars@.subrange(start as int, i as int + 1));
            }
        }
        i += 1;
    }
    assert(chars@.take(chars@.len() as int) =~= s@);
    if start < i {
        let ghost before = out@;
        let word = string_of(&chars, start, i);
        out.push(word);
        assert(views(out@) =~= views(before).push(word@));
    }
    out
}

/// The parts one after the other, with `sep` between neighbours.
pub fn join_strings(parts: &[String], sep: &str) -> (r: String)
    ensures
        r@ == join(views(parts@), sep@),
{
    let mut out = String::new();
    let mut i: usize = 0;
    let ghost all = views(parts@);
    while i < parts.len()
        invariant
            i <= parts.len(),
            all == views(parts@),
            out@ == join(all.take(i as int), sep@),
        decreases parts.len() - i,
    {
        assert(all.take(i as int + 1).drop_last() =~= all.take(i as int));
        assert(all.take(i as int + 1).last() == parts@[i as int]@);
        if i > 0 {
            out.append(sep);
        }
        let ghost joined = out@;
        out.append(parts[i].as_str());
        if i == 0 {
            assert(out@ =~= parts@[0]@);
        }
        i += 1;
    }
    assert(all.take(all.len() as int) =~= all);
    out
}

/// `s` with every run of white space collapsed to one blank and none at its ends.
pub fn collapse_white(s: &str) -> (r: String)
    ensures
        r@ == collapsed(s@),
{
    let parts = split_words(s);
    proof {
        reveal_strlit(" ");
        assert(" "@ =~= seq![' ']);
    }
    join_strings(&parts, " ")
}

/// The words of a text are not empty and have no white space.
pub proof fn lemma_words_are_words(s: Seq<char>)
    ensures
        are_words(words(s)),
        s.len() > 0 && !is_white_space(s.last()) ==> words(s).len() > 0,
    decreases s.len(),
{
    if s.len() > 0 {
        let init = s.drop_last();
        let before = words(init);
        let after = words(s);
        lemma_words_are_words(init);
        if s.len() >= 2 {
            assert(init.last() == s[s.len() - 2]);
        }
        assert forall|i: int| 0 <= i < after.len() implies is_word(#[trigger] after[i]) by {
            if is_white_space(s.last()) {
                assert(after[i] == before[i]);
            } else if s.len() >= 2 && !is_white_space(s[s.len() - 2]) {
                if i < before.len() - 1 {
                    assert(after[i] == before[i]);
                } else {
                    let w = before.last();
                    assert(is_word(before[before.len() - 1]));
                    assert forall|k: int| 0 <= k < after[i].len() implies !is_white_space(
                        #[trigger] after[i][k],
                    ) by {
                        if k < w.len() {
                            assert(after[i][k] == w[k]);
                        }
                    }
                }
            } else if i < before.len() {
                assert(after[i] == before[i]);
            }
        }
    }
}

/// A word after white space, or at the beginning, is one more word.
proof fn lemma_words_append(a: Seq<char>, w: Seq<char>)
    requires
        is_word(w),
        a.len() > 0 ==> is_white_space(a.last()),
    ensures
        words(a + w) == words(a).push(w),
    decreases w.len(),
{
    let s = a + w;
    let init = w.drop_last();
    assert(s.drop_last() =~= a + init);
    assert(s.last() == w.last());
    assert(!is_white_space(w[w.len() - 1]));
    if w.len() == 1 {
        assert(a + init =~= a);
        assert(w =~= seq![w.last()]);
        if s.len() >= 2 {
            assert(s[s.len() - 2] == a.last());
        }
    } else {
        assert forall|k: int| 0 <= k < init.len() implies !is_white_space(#[trigger] init[k]) by {
            assert(init[k] == w[k]);
        }
        lemma_words_append(a, init);
        assert(s[s.len() - 2] == w[w.len() - 2]);
        assert(words(a).push(init).drop_last() =~= words(a));
        assert(init.push(w.last()) =~= w);
    }
}

/// Words with single blanks between them are collapsed, and have these words.
pub proof fn lemma_joined_words(parts: Seq<Seq<char>>)
    requires
        are_words(parts),
    ensures
        is_collapsed(join(parts, seq![' '])),
        words(join(parts, seq![' '])) == parts,
        parts.len() > 0 ==> join(parts, seq![' ']).len() > 0,
    decreases parts.len(),
{
    let s = join(parts, seq![' ']);
    if parts.len() == 0 {
        assert(words(s) =~= parts);
    } else if parts.len() == 1 {
        assert(is_word(parts[0]));
        assert(Seq::<char>::empty() + s =~= s);
        lemma_words_append(Seq::empty(), s);
        assert(words(s) =~= parts);
    } else {
        let init = parts.drop_last();
        let w = parts.last();
        assert(is_word(parts[parts.len() - 1]));
        assert forall|i: int| 0 <= i < init.len() implies is_word(#[trigger] init[i]) by {
            assert(init[i] == parts[i]);
        }
        lemma_joined_words(init);
        let before = join(init, seq![' ']);
        let a = before + seq![' '];
        assert(s =~= a + w);
        assert(a.drop_last() =~= before);
        assert(words(a) == words(before));
        lemma_words_append(a, w);
        assert(words(s) =~= parts);
        assert(s[0] == before[0]);
        assert(s.last() == w[w.len() - 1]);
        assert forall|i: int| 0 <= i < s.len() && is_white_space(#[trigger] s[i]) implies s[i]
            == ' ' by {
            if i < before.len() {
                assert(s[i] == before[i]);
            } else if i > before.len() {
                assert(s[i] == w[i - before.len() - 1]);
            }
        }
        assert forall|i: int, j: int| 0 <= i < s.len() && j == i + 1 && j < s.len() implies !(
        is_white_space(#[trigger] s[i]) && is_white_space(#[trigger] s[j])) by {
            if j < before.len() {
                assert(s[i] == before[i] && s[j] == before[j]);
            } else if j == before.len() {
                assert(s[i] == before.last());
            } else {
                assert(s[j] == w[j - before.len() - 1]);
            }
        }
    }
}

/// A collapsed text has no white space to trim.
proof fn lemma_collapsed_is_trimmed(s: Seq<char>)
    requires
        is_collapsed(s),
    ensures
        trim(s) == s,
{
    lemma_trim_is_subrange(s, 0, s.len() as int);
    assert(s.subrange(0, s.len() as int) =~= s);
}

/// Collapsing leaves nothing to trim and single blanks between words. It keeps the words, and to
/// collapse a text again changes nothing.
pub proof fn law_collapsing_happens_once(s: Seq<char>)
    ensures
        is_collapsed(collapsed(s)),
        trim(collapsed(s)) == collapsed(s),
        words(collapsed(s)) == words(s),
        collapsed(collapsed(s)) == collapsed(s),
{
    lemma_words_are_words(s);
    lemma_joined_words(words(s));
    lemma_collapsed_is_trimmed(collapsed(s));
}

/// A collapsed text is what collapsing leaves of it.
pub proof fn law_collapsed_text_stays(s: Seq<char>)
    requires
        is_collapsed(s),
    ensures
        collapsed(s) == s,
    decreases s.len(),
{
    if s.len() > 0 {
        let k = lemma_last_word(s, s.len() as int);
        let w = s.skip(k);
        let a = s.take(k);
        assert forall|i: int| 0 <= i < w.len() implies !is_white_space(#[trigger] w[i]) by {
            assert(w[i] == s[k + i]);
        }
        assert(a + w =~= s);
        lemma_words_append(a, w);
        if k == 0 {
            assert(words(a) =~= Seq::empty());
            assert(words(s) =~= seq![w]);
            assert(w =~= s);
        } else {
            let before = a.drop_last();
            assert(a.last() == s[k - 1]);
            assert(s[k - 1] == ' ');
            assert(a =~= before + seq![' ']);
            assert(words(a) == words(before));
            assert(k - 1 > 0) by {
                assert(!is_white_space(s[0]));
            }
            assert(before.last() == s[k - 2]);
            assert(!is_white_space(s[k - 2])) by {
                assert(is_white_space(s[k - 1]));
            }
            assert forall|i: int| 0 <= i < before.len() && is_white_space(
                #[trigger] before[i],
            ) implies before[i] == ' ' by {
                assert(before[i] == s[i]);
            }
            assert forall|i: int, j: int|
                0 <= i < before.len() && j == i + 1 && j < before.len() implies !(is_white_space(
                #[trigger] before[i],
            ) && is_white_space(#[trigger] before[j])) by {
                assert(before[i] == s[i] && before[j] == s[j]);
            }
            assert(before[0] == s[0]);
            law_collapsed_text_stays(before);
            lemma_words_are_words(before);
            let parts = words(s);
            assert(parts.drop_last() =~= words(before));
            assert(parts.len() > 1);
            assert(join(parts, seq![' ']) =~= before + seq![' '] + w);
        }
    } else {
        assert(collapsed(s) =~= s);
    }
}

/// In a text of ASCII characters lowercasing keeps the white space as it is, and to lowercase again
/// changes nothing.
pub proof fn law_ascii_lowercasing_happens_once(s: Seq<char>)
    requires
        all_ascii(s),
    ensures
        all_ascii(lowercase(s)),
        lowercase(s).len() == s.len(),
        forall|i: int|
            0 <= i < s.len() ==> is_white_space(#[trigger] lowercase(s)[i]) == is_white_space(s[i]),
        is_collapsed(s) ==> is_collapsed(lowercase(s)),
        lowercase(lowercase(s)) == lowercase(s),
{
    let low = lowercase(s);
    assert forall|i: int| 0 <= i < s.len() implies (#[trigger] low[i] as int) < 0x80
        && is_white_space(low[i]) == is_white_space(s[i]) && (is_white_space(s[i]) ==> low[i]
        == s[i]) && ascii_lower(low[i]) == low[i] by {
        assert((s[i] as int) < 0x80);
    }
    assert(ascii_lowercase(low) =~= low);
    if is_collapsed(s) {
        assert forall|i: int, j: int| 0 <= i < low.len() && j == i + 1 && j < low.len() implies !(
        is_white_space(#[trigger] low[i]) && is_white_space(#[trigger] low[j])) by {
            assert(!(is_white_space(s[i]) && is_white_space(s[j])));
        }
        assert(is_collapsed(low));
    }
}

/// Where the word that ends before `n` begins.
proof fn lemma_last_word(s: Seq<char>, n: int) -> (k: int)
    requires
        0 < n <= s.len(),
        !is_white_space(s[n - 1]),
    ensures
        0 <= k < n,
        forall|i: int| k <= i < n ==> !is_white_space(#[trigger] s[i]),
        k > 0 ==> is_white_space(s[k - 1]),
    decreases n,
{
    if n == 1 || is_white_space(s[n - 2]) {
        n - 1
    } else {
        lemma_last_word(s, n - 1)
    }
}

/// White space in between parts the words of two texts.
pub proof fn lemma_words_apart(a: Seq<char>, white: Seq<char>, b: Seq<char>)
    requires
        white.len() > 0,
        all_white(white),
    ensures
        words(a + white + b) == words(a) + words(b),
    decreases white.len() + b.len(),
{
    let s = a + white + b;
    if b.len() == 0 {
        let init = white.drop_last();
        assert(s.drop_last() =~= a + init);
        assert(s.last() == white[white.len() - 1]);
        assert(words(s) == words(a + init));
        if init.len() > 0 {
            assert forall|i: int| 0 <= i < init.len() implies is_white_space(#[trigger] init[i]) by {
                assert(init[i] == white[i]);
            }
            lemma_words_apart(a, init, b);
            assert(a + init + b =~= a + init);
        } else {
            assert(a + init =~= a);
        }
        assert(words(a) + words(b) =~= words(a));
    } else {
        let init = b.drop_last();
        lemma_words_apart(a, white, init);
        assert(s.drop_last() =~= a + white + init);
        assert(s.last() == b.last());
        let before = words(init);
        if b.len() >= 2 {
            assert(s[s.len() - 2] == b[b.len() - 2]);
            assert(init.last() == b[b.len() - 2]);
            lemma_words_are_words(init);
        } else {
            assert(s[s.len() - 2] == white[white.len() - 1]);
        }
        if !is_white_space(b.last()) && b.len() >= 2 && !is_white_space(b[b.len() - 2]) {
            assert((words(a) + before).drop_last() =~= words(a) + before.drop_last());
            assert((words(a) + before).last() == before.last());
        }
        assert(words(s) =~= words(a) + words(b));
    }
}

/// `s` with every occurrence of `from` replaced by `to`.
pub fn replace_char(s: &str, from: char, to: &str) -> (r: String)
    ensures
        r@ == replaced(s@, from, to@),
{
    let chars = chars_of(s);
    let mut out = String::new();
    let mut i: usize = 0;
    while i < chars.len()
        invariant
            i <= chars.len(),
            chars@ == s@,
            out@ == replaced(chars@.take(i as int), from, to@),
        decreases chars.len() - i,
    {
        assert(chars@.take(i as int + 1).drop_last() =~= chars@.take(i as int));
        if chars[i] == from {
            out.append(to);
        } else {
            let ghost before = out@;
            out.push(chars[i]);
            assert(out@ =~= before + seq![chars@[i as int]]);
        }
        i += 1;
    }
    assert(chars@.take(chars@.len() as int) =~= s@);
    out
}

/// Holds where every character is one of ASCII.
pub open spec fn all_ascii(s: Seq<char>) -> bool {
    forall|i: int| 0 <= i < s.len() ==> (#[trigger] s[i] as int) < 0x80
}

/// A capital letter of ASCII by its small one, and any other character by itself.
pub open spec fn ascii_lower(c: char) -> char {
    if 'A' <= c && c <= 'Z' {
        (c as int + 32) as char
    } else {
        c
    }
}

/// A text with the small letters of ASCII in the place of the capital ones.
pub open spec fn ascii_lowercase(s: Seq<char>) -> Seq<char> {
    s.map_values(|c: char| ascii_lower(c))
}

/// What `str::to_lowercase` gives for a string.
pub uninterp spec fn unicode_lowercase(s: Seq<char>) -> Seq<char>;

/// A text in lowercase: letter by letter where all of it is ASCII, and by Unicode's case mapping
/// otherwise.
pub open spec fn lowercase(s: Seq<char>) -> Seq<char> {
    if all_ascii(s) {
        ascii_lowercase(s)
    } else {
        unicode_lowercase(s)
    }
}

/// `str::to_lowercase`: the lowercase form by Unicode's case mapping, which is a function
/// of the string alone. In a text of ASCII characters it is a change of the letters from `A` to
/// `Z` to those from `a` to `z`. Of other texts nothing more is claimed: neither that their white
/// space stays what it is, nor that a text in lowercase does.
#[verifier::external_body]
pub(crate) fn lowercased(s: &str) -> (r: String)
    ensures
        r@ == unicode_lowercase(s@),
        all_ascii(s@) ==> r@ == ascii_lowercase(s@),
{
    s.to_lowercase()
}

/// The decimal digit with value `d`.
fn digit(d: u128) -> (r: char)
    requires
        d < 10,
    ensures
        r == digit_char(d as nat),
{
    let code: u8 = 48 + (d as u8);
    code as char
}

/// The decimal numeral of `n`.
pub fn decimal_string(n: u128) -> (r: String)
    ensures
        r@ == decimal(n as nat),
    decreases n,
{
    if n < 10 {
        let mut out = String::new();
        out.push(digit(n));
        assert(out@ =~= decimal(n as nat));
        out
    } else {
        let mut out = decimal_string(n / 10);
        out.push(digit(n % 10));
        out
    }
}

/// The decimal numeral of `n`, with a sign where it is negative.
pub fn signed_decimal_string(n: i128) -> (r: String)
    ensures
        r@ == signed_decimal(n as int),
{
    if n >= 0 {
        decimal_string(n as u128)
    } else {
        let magnitude: u128 = if n == i128::MIN {
            0x8000_0000_0000_0000_0000_0000_0000_0000
        } else {
            (-n) as u128
        };
        let mut out = String::new();
        out.push('-');
        let digits = decimal_string(magnitude);
        out.append(digits.as_str());
        assert(out@ =~= signed_decimal(n as int));
        out
    }
}

/// `s` as an owned string.
pub fn owned(s: &str) -> (r: String)
    ensures
        r@ == s@,
{
    s.to_owned()
}

/// Copies a list of strings.
pub fn clone_strings(v: &Vec<String>) -> (r: Vec<String>)
    ensures
        views(r@) == views(v@),
        r@ == v@,
{
    let r = v.clone();
    assert(r@ =~= v@);
    r
}

/// The view of an optional string.
pub open spec fn opt_view(s: Option<String>) -> Option<Seq<char>> {
    match s {
        Some(t) => Some(t@),
        None => None,
    }
}

/// Copies an optional string.
pub fn clone_opt_string(s: &Option<String>) -> (r: Option<String>)
    ensures
        opt_view(r) == opt_view(*s),
        r == *s,
{
    match s {
        Some(t) => Some(t.clone()),
        None => None,
    }
}

/// A list of one string.
pub fn single(s: &str) -> (r: Vec<String>)
    ensures
        views(r@) == seq![s@],
{
    let mut out: Vec<String> = Vec::new();
    out.push(s.to_owned());
    assert(views(out@) =~= seq![s@]);
    out
}

/// A part of joined texts stands after the parts before it, joined and with a separator behind
/// them.
pub proof fn lemma_join_around(parts: Seq<Seq<char>>, sep: Seq<char>, i: int) -> (around: (
    Seq<char>,
    Seq<char>,
))
    requires
        0 <= i < parts.len(),
    ensures
        join(parts, sep) == around.0 + parts[i] + around.1,
        i == 0 ==> around.0 == Seq::<char>::empty(),
        i > 0 ==> around.0 == join(parts.take(i), sep) + sep,
        i == parts.len() - 1 ==> around.1 == Seq::<char>::empty(),
    decreases parts.len(),
{
    let none = Seq::<char>::empty();
    if parts.len() == 1 {
        assert(join(parts, sep) =~= none + parts[i] + none);
        (none, none)
    } else {
        let init = parts.drop_last();
        if i == parts.len() - 1 {
            assert(parts.take(i) =~= init);
            let a = join(init, sep) + sep;
            assert(join(parts, sep) =~= a + parts[i] + none);
            (a, none)
        } else {
            let (a, b) = lemma_join_around(init, sep, i);
            assert(init.take(i) =~= parts.take(i));
            let more = b + sep + parts.last();
            assert(join(parts, sep) =~= a + parts[i] + more);
            (a, more)
        }
    }
}

/// The number that decimal digits stand for.
pub open spec fn numeral_value(digits: Seq<char>) -> int
    decreases digits.len(),
{
    if digits.len() == 0 {
        0
    } else {
        10 * numeral_value(digits.drop_last()) + (digits.last() as int - '0' as int)
    }
}

/// A decimal numeral has digits only, no zero in front of others, and stands for its number.
pub proof fn law_numeral_stands_for_its_number(n: nat)
    ensures
        decimal(n).len() > 0,
        forall|i: int| 0 <= i < decimal(n).len() ==> '0' <= #[trigger] decimal(n)[i] <= '9',
        decimal(n).len() > 1 ==> decimal(n)[0] != '0',
        numeral_value(decimal(n)) == n,
    decreases n,
{
    let s = decimal(n);
    if n < 10 {
        assert(s.drop_last() =~= Seq::<char>::empty());
        assert(numeral_value(s.drop_last()) == 0);
        assert(s.last() == digit_char(n));
    } else {
        let before = decimal(n / 10);
        law_numeral_stands_for_its_number(n / 10);
        assert(s.drop_last() =~= before);
        assert(s.last() == digit_char(n % 10));
        assert forall|i: int| 0 <= i < s.len() implies '0' <= #[trigger] s[i] <= '9' by {
            if i < before.len() {
                assert(s[i] == before[i]);
            }
        }
        if before.len() == 1 {
            assert(n / 10 > 0);
            assert(before.drop_last() =~= Seq::<char>::empty());
            assert(numeral_value(before.drop_last()) == 0);
        }
        assert(s[0] == before[0]);
    }
}

/// Where one character takes the place of another, every character stands where it stood.
pub proof fn lemma_replaced_by_one(s: Seq<char>, from: char, to: char)
    ensures
        replaced(s, from, seq![to]).len() == s.len(),
        forall|i: int|
            0 <= i < s.len() ==> #[trigger] replaced(s, from, seq![to])[i] == if s[i] == from {
                to
            } else {
                s[i]
            },
    decreases s.len(),
{
    if s.len() > 0 {
        let init = s.drop_last();
        lemma_replaced_by_one(init, from, to);
        let before = replaced(init, from, seq![to]);
        let after = replaced(s, from, seq![to]);
        assert forall|i: int| 0 <= i < s.len() implies #[trigger] after[i] == if s[i] == from {
            to
        } else {
            s[i]
        } by {
            if i < init.len() {
                assert(after[i] == before[i]);
                assert(init[i] == s[i]);
            }
        }
    }
}

} // verus!
