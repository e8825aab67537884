//! What the operations on texts promise, position by position.
use crate::ids;
use crate::text;
use vstd::prelude::*;

verus! {

proof fn lemma_trim_start(s: Seq<char>) -> (a: int)
    ensures
        0 <= a <= s.len(),
        text::trim_start(s) == s.subrange(a, s.len() as int),
        forall|i: int| 0 <= i < a ==> text::is_white_space(#[trigger] s[i]),
        a < s.len() ==> !text::is_white_space(s[a]),
    decreases s.len(),
{
    if s.len() > 0 && text::is_white_space(s[0]) {
        let rest = s.skip(1);
        let b = lemma_trim_start(rest);
        assert(rest.subrange(b, rest.len() as int) =~= s.subrange(b + 1, s.len() as int));
        assert forall|i: int| 0 <= i < b + 1 implies text::is_white_space(#[trigger] s[i]) by {
            if i > 0 {
                assert(rest[i - 1] == s[i]);
            }
        }
        b + 1
    } else {
        assert(s.subrange(0, s.len() as int) =~= s);
        0
    }
}

proof fn lemma_trim_end(s: Seq<char>) -> (b: int)
    ensures
        0 <= b <= s.len(),
        text::trim_end(s) == s.subrange(0, b),
        forall|i: int| b <= i < s.len() ==> text::is_white_space(#[trigger] s[i]),
        b > 0 ==> !text::is_white_space(s[b - 1]),
    decreases s.len(),
{
    if s.len() > 0 && text::is_white_space(s.last()) {
        let init = s.drop_last();
        let b = lemma_trim_end(init);
        assert(init.subrange(0, b) =~= s.subrange(0, b));
        assert forall|i: int| b <= i < s.len() implies text::is_white_space(#[trigger] s[i]) by {
            if i < init.len() {
                assert(init[i] == s[i]);
            }
        }
        b
    } else {
        assert(s.subrange(0, s.len() as int) =~= s);
        s.len() as int
    }
}

/// Trimming leaves the part of a text from its first to its last character that is not white
/// space.
pub proof fn law_trimming_drops_white_ends(s: Seq<char>) -> (r: (int, int))
    ensures
        0 <= r.0 <= r.1 <= s.len(),
        text::trim(s) == s.subrange(r.0, r.1),
        forall|i: int|
            0 <= i < s.len() && !(r.0 <= i < r.1) ==> text::is_white_space(#[trigger] s[i]),
        r.0 < r.1 ==> !text::is_white_space(s[r.0]) && !text::is_white_space(s[r.1 - 1]),
{
    let a = lemma_trim_start(s);
    let rest = s.subrange(a, s.len() as int);
    let b = lemma_trim_end(rest);
    assert(rest.subrange(0, b) =~= s.subrange(a, a + b));
    assert forall|i: int| 0 <= i < s.len() && !(a <= i < a + b) implies text::is_white_space(
        #[trigger] s[i],
    ) by {
        if i >= a {
            assert(rest[i - a] == s[i]);
        }
    }
    if b > 0 {
        assert(rest[b - 1] == s[a + b - 1]);
    }
    (a, a + b)
}

/// Holds where a span of a text is a run of characters without white space that cannot be made
/// longer.
pub open spec fn is_word_span(s: Seq<char>, span: (int, int)) -> bool {
    &&& 0 <= span.0 < span.1 <= s.len()
    &&& forall|i: int| span.0 <= i < span.1 ==> !text::is_white_space(#[trigger] s[i])
    &&& span.0 > 0 ==> text::is_white_space(s[span.0 - 1])
    &&& span.1 < s.len() ==> text::is_white_space(s[span.1])
}

/// Holds where a position is in one of the spans.
pub open spec fn is_covered(spans: Seq<(int, int)>, i: int) -> bool {
    exists|k: int| 0 <= k < spans.len() && (#[trigger] spans[k]).0 <= i < spans[k].1
}

/// The words of a text are its longest runs without white space, in order, and every character that
/// is not white space is in one.
pub proof fn law_words_are_longest_runs(s: Seq<char>) -> (spans: Seq<(int, int)>)
    ensures
        spans.len() == text::words(s).len(),
        forall|k: int|
            #![trigger spans[k]]
            0 <= k < spans.len() ==> is_word_span(s, spans[k]) && text::words(s)[k] == s.subrange(
                spans[k].0,
                spans[k].1,
            ),
        forall|j: int, k: int|
            0 <= j < k < spans.len() ==> (#[trigger] spans[j]).1 < (#[trigger] spans[k]).0,
        forall|i: int|
            0 <= i < s.len() && !text::is_white_space(#[trigger] s[i]) ==> is_covered(spans, i),
    decreases s.len(),
{
    if s.len() == 0 {
        Seq::empty()
    } else {
        let init = s.drop_last();
        let n = s.len() - 1;
        let before = law_words_are_longest_runs(init);
        let c = s.last();
        assert(s[n] == c);
        if text::is_white_space(c) {
            assert forall|k: int|
                #![trigger before[k]]
                0 <= k < before.len() implies is_word_span(s, before[k]) && text::words(s)[k]
                == s.subrange(before[k].0, before[k].1) by {
                lemma_span_stays(s, before[k]);
            }
            assert forall|i: int|
                0 <= i < s.len() && !text::is_white_space(#[trigger] s[i]) implies is_covered(
                before,
                i,
            ) by {
                assert(init[i] == s[i]);
            }
            before
        } else if s.len() >= 2 && !text::is_white_space(s[s.len() - 2]) {
            assert(init[n - 1] == s[n - 1]);
            assert(is_covered(before, n - 1));
            let m = before.len() - 1;
            let q = choose|q: int|
                0 <= q < before.len() && (#[trigger] before[q]).0 <= n - 1 < before[q].1;
            if q < m {
                assert(before[q].1 < before[m].0);
                assert(is_word_span(init, before[m]));
            }
            let span = (before[m].0, n + 1);
            let spans = before.drop_last().push(span);
            assert(is_word_span(init, before[m]));
            assert(before[m].1 == n);
            assert(is_word_span(s, span)) by {
                assert forall|i: int| span.0 <= i < span.1 implies !text::is_white_space(
                    #[trigger] s[i],
                ) by {
                    if i < n {
                        assert(init[i] == s[i]);
                    }
                }
                if span.0 > 0 {
                    assert(init[span.0 - 1] == s[span.0 - 1]);
                }
            }
            assert(text::words(init)[m] == init.subrange(before[m].0, before[m].1));
            assert(init.subrange(before[m].0, n).push(c) =~= s.subrange(span.0, span.1));
            assert forall|k: int|
                #![trigger spans[k]]
                0 <= k < spans.len() implies is_word_span(s, spans[k]) && text::words(s)[k]
                == s.subrange(spans[k].0, spans[k].1) by {
                if k < m {
                    assert(spans[k] == before[k]);
                    assert(before[k].1 < before[m].0);
                    assert(is_word_span(init, before[k]));
                    lemma_span_stays(s, before[k]);
                }
            }
            assert forall|j: int, k: int| 0 <= j < k < spans.len() implies (
            #[trigger] spans[j]).1 < (#[trigger] spans[k]).0 by {
                assert(spans[j] == before[j]);
                assert(before[j].1 < before[k].0);
            }
            assert forall|i: int|
                0 <= i < s.len() && !text::is_white_space(#[trigger] s[i]) implies is_covered(
                spans,
                i,
            ) by {
                if i == n {
                    assert(spans[m].0 <= i < spans[m].1);
                } else {
                    assert(init[i] == s[i]);
                    let k = choose|k: int|
                        0 <= k < before.len() && (#[trigger] before[k]).0 <= i < before[k].1;
                    assert(spans[k].0 <= i < spans[k].1);
                }
            }
            spans
        } else {
            let spans = before.push((n, n + 1));
            let m = before.len();
            assert(s.subrange(n, n + 1) =~= seq![c]);
            assert forall|k: int|
                #![trigger spans[k]]
                0 <= k < spans.len() implies is_word_span(s, spans[k]) && text::words(s)[k]
                == s.subrange(spans[k].0, spans[k].1) by {
                if k < m {
                    assert(spans[k] == before[k]);
                    assert(is_word_span(init, before[k]));
                    if before[k].1 == n {
                        assert(!text::is_white_space(init[n - 1]));
                    }
                    lemma_span_stays(s, before[k]);
                }
            }
            assert forall|j: int, k: int| 0 <= j < k < spans.len() implies (
            #[trigger] spans[j]).1 < (#[trigger] spans[k]).0 by {
                assert(spans[j] == before[j]);
                assert(is_word_span(init, before[j]));
                if k < m {
                    assert(spans[k] == before[k]);
                } else if before[j].1 == n {
                    assert(!text::is_white_space(init[n - 1]));
                }
            }
            assert forall|i: int|
                0 <= i < s.len() && !text::is_white_space(#[trigger] s[i]) implies is_covered(
                spans,
                i,
            ) by {
                if i == n {
                    assert(spans[m as int].0 <= i < spans[m as int].1);
                } else {
                    assert(init[i] == s[i]);
                    let k = choose|k: int|
                        0 <= k < before.len() && (#[trigger] before[k]).0 <= i < before[k].1;
                    assert(spans[k].0 <= i < spans[k].1);
                }
            }
            spans
        }
    }
}

proof fn lemma_span_stays(s: Seq<char>, span: (int, int))
    requires
        s.len() > 0,
        is_word_span(s.drop_last(), span),
        span.1 == s.len() - 1 ==> text::is_white_space(s.last()),
    ensures
        is_word_span(s, span),
        s.drop_last().subrange(span.0, span.1) == s.subrange(span.0, span.1),
{
    let init = s.drop_last();
    assert(init.subrange(span.0, span.1) =~= s.subrange(span.0, span.1));
    assert forall|i: int| span.0 <= i < span.1 implies !text::is_white_space(#[trigger] s[i]) by {
        assert(init[i] == s[i]);
    }
    if span.0 > 0 {
        assert(init[span.0 - 1] == s[span.0 - 1]);
    }
    if span.1 < init.len() {
        assert(init[span.1] == s[span.1]);
    }
}

/// Replacing goes character by character: the replaced one gives its replacement, and any other
/// itself.
pub proof fn law_replacing_goes_by_characters(
    a: Seq<char>,
    b: Seq<char>,
    from: char,
    to: Seq<char>,
    c: char,
)
    ensures
        text::replaced(a + b, from, to) == text::replaced(a, from, to) + text::replaced(b, from, to),
        text::replaced(seq![from], from, to) == to,
        c != from ==> text::replaced(seq![c], from, to) == seq![c],
        text::replaced(Seq::empty(), from, to).len() == 0,
    decreases b.len(),
{
    assert(seq![from].drop_last() =~= Seq::<char>::empty());
    assert(seq![c].drop_last() =~= Seq::<char>::empty());
    assert(text::replaced(seq![from].drop_last(), from, to) == Seq::<char>::empty());
    assert(text::replaced(seq![c].drop_last(), from, to) == Seq::<char>::empty());
    assert(Seq::<char>::empty() + to =~= to);
    assert(text::replaced(seq![from], from, to) =~= to);
    assert(c != from ==> text::replaced(seq![c], from, to) =~= seq![c]);
    if b.len() == 0 {
        assert(a + b =~= a);
        assert(text::replaced(a, from, to) + text::replaced(b, from, to) =~= text::replaced(
            a,
            from,
            to,
        ));
    } else {
        let init = b.drop_last();
        law_replacing_goes_by_characters(a, init, from, to, c);
        assert((a + b).drop_last() =~= a + init);
        assert(text::replaced(a + b, from, to) =~= text::replaced(a, from, to) + text::replaced(
            b,
            from,
            to,
        ));
    }
}

/// Joining puts the separator between what two lists of parts join to, and nothing around a single
/// part.
pub proof fn law_joining_puts_separators_between(
    a: Seq<Seq<char>>,
    b: Seq<Seq<char>>,
    sep: Seq<char>,
    part: Seq<char>,
)
    requires
        a.len() > 0,
        b.len() > 0,
    ensures
        text::join(a + b, sep) == text::join(a, sep) + sep + text::join(b, sep),
        text::join(seq![part], sep) == part,
        text::join(Seq::empty(), sep).len() == 0,
    decreases b.len(),
{
    assert((a + b).drop_last() =~= a + b.drop_last());
    if b.len() == 1 {
        assert(a + b.drop_last() =~= a);
    } else {
        law_joining_puts_separators_between(a, b.drop_last(), sep, part);
        assert(text::join(a + b, sep) =~= text::join(a, sep) + sep + text::join(b, sep));
    }
}

/// Of two byte sequences the smaller one has the smaller byte at the first position where they
/// differ, or is the beginning of the other.
pub proof fn law_bytes_are_compared_in_order(a: Seq<u8>, b: Seq<u8>, n: int)
    requires
        0 <= n <= a.len(),
        n <= b.len(),
        forall|i: int| 0 <= i < n ==> #[trigger] a[i] == b[i],
    ensures
        n < a.len() && n < b.len() && a[n] < b[n] ==> text::bytes_lt(a, b),
        n < a.len() && n < b.len() && a[n] > b[n] ==> !text::bytes_lt(a, b),
        n == a.len() && n < b.len() ==> text::bytes_lt(a, b),
        n == b.len() ==> !text::bytes_lt(a, b),
    decreases n,
{
    if n > 0 {
        assert(a[0] == b[0]);
        let (p, q) = (a.skip(1), b.skip(1));
        assert forall|i: int| 0 <= i < n - 1 implies #[trigger] p[i] == q[i] by {
            assert(a[i + 1] == b[i + 1]);
        }
        law_bytes_are_compared_in_order(p, q, n - 1);
    }
}

/// A signed numeral is the numeral of the number without its sign, after a minus sign where it is
/// below zero.
pub proof fn law_signed_numeral_has_its_sign(n: nat)
    ensures
        text::signed_decimal(n as int) == text::decimal(n),
        n > 0 ==> text::signed_decimal(-n) == seq!['-'] + text::decimal(n),
{
}

/// The number that a lowercase hexadecimal digit stands for.
pub open spec fn hex_value(c: char) -> int {
    if '0' <= c <= '9' {
        c as int - '0' as int
    } else {
        c as int - 'a' as int + 10
    }
}

proof fn lemma_hex_digit(d: int)
    requires
        0 <= d < 16,
    ensures
        hex_value(ids::hex_digit(d)) == d,
{
}

proof fn lemma_hex_at(bytes: Seq<u8>, k: int)
    requires
        0 <= k < bytes.len(),
    ensures
        ids::hex(bytes).len() == 2 * bytes.len(),
        hex_value(ids::hex(bytes)[2 * k]) * 16 + hex_value(ids::hex(bytes)[2 * k + 1]) == bytes[k],
    decreases bytes.len(),
{
    let init = bytes.drop_last();
    let n = init.len() as int;
    if n > 0 {
        lemma_hex_at(init, if k < n { k } else { 0 });
    }
    assert(ids::hex(init).len() == 2 * n);
    let last = bytes.last() as int;
    lemma_hex_digit(last / 16);
    lemma_hex_digit(last % 16);
    let all = ids::hex(bytes);
    assert(all[2 * n] == ids::hex_digit(last / 16));
    assert(all[2 * n + 1] == ids::hex_digit(last % 16));
    if k < n {
        assert(all[2 * k] == ids::hex(init)[2 * k]);
        assert(all[2 * k + 1] == ids::hex(init)[2 * k + 1]);
        assert(init[k] == bytes[k]);
    }
}

/// The position of the digits of a byte in the hyphenated form.
pub open spec fn digits_at(k: int) -> int {
    if k < 4 {
        2 * k
    } else if k < 6 {
        2 * k + 1
    } else if k < 8 {
        2 * k + 2
    } else if k < 10 {
        2 * k + 3
    } else {
        2 * k + 4
    }
}

/// An identifier spells its sixteen bytes in order, two hexadecimal digits each, with hyphens after
/// the fourth, sixth, eighth and tenth.
pub proof fn law_identifier_spells_its_bytes(b: Seq<u8>, k: int)
    requires
        b.len() == 16,
        0 <= k < 16,
    ensures
        ids::hyphenated(b).len() == 36,
        hex_value(ids::hyphenated(b)[digits_at(k)]) * 16 + hex_value(
            ids::hyphenated(b)[digits_at(k) + 1],
        ) == b[k],
        ids::hyphenated(b)[8] == '-' && ids::hyphenated(b)[13] == '-' && ids::hyphenated(b)[18]
            == '-' && ids::hyphenated(b)[23] == '-',
{
    let (p, q, r, s, t) = (
        b.subrange(0, 4),
        b.subrange(4, 6),
        b.subrange(6, 8),
        b.subrange(8, 10),
        b.subrange(10, 16),
    );
    lemma_hex_at(p, if k < 4 { k } else { 0 });
    lemma_hex_at(q, if 4 <= k < 6 { k - 4 } else { 0 });
    lemma_hex_at(r, if 6 <= k < 8 { k - 6 } else { 0 });
    lemma_hex_at(s, if 8 <= k < 10 { k - 8 } else { 0 });
    lemma_hex_at(t, if 10 <= k { k - 10 } else { 0 });
}

} // verus!
