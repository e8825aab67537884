//! Limits of the pipeline and small helpers.
use crate::text::{self, collapse_white, lowercased};
use vstd::prelude::*;

pub use crate::time::{ensure_utc, isoformat, utc_now};

verus! {

/// How many operations may be in flight at once.
pub const SEMAPHORE_LIMIT: usize = 20;

/// How many related facts are looked at for one fact.
pub const RELEVANT_SCHEMA_LIMIT: usize = 10;

/// How many earlier episodes give context to an episode.
pub const EPISODE_WINDOW_LEN: usize = 3;

/// A text with runs of white space collapsed to one blank, none at its ends, in lowercase.
pub open spec fn normal_form(s: Seq<char>) -> Seq<char> {
    text::lowercase(text::collapsed(s))
}

/// Collapses white space and lowercases.
pub fn normalize_string_exact(s: &str) -> (r: String)
    ensures
        r@ == normal_form(s@),
{
    let collapsed = collapse_white(s);
    lowercased(collapsed.as_str())
}

/// Two texts with the same words have the same normal form.
pub proof fn law_normal_form_depends_on_words(a: Seq<char>, b: Seq<char>)
    requires
        text::words(a) == text::words(b),
    ensures
        normal_form(a) == normal_form(b),
{
}

/// White space at the ends of a text does not change its normal form, nor does the length or kind
/// of white space within it.
pub proof fn law_normal_form_ignores_white_space(
    a: Seq<char>,
    b: Seq<char>,
    white: Seq<char>,
    other: Seq<char>,
)
    requires
        white.len() > 0,
        other.len() > 0,
        text::all_white(white),
        text::all_white(other),
    ensures
        normal_form(a + white + b) == normal_form(a + other + b),
        normal_form(white + a) == normal_form(a),
        normal_form(a + white) == normal_form(a),
{
    let none = Seq::<char>::empty();
    text::lemma_words_apart(a, white, b);
    text::lemma_words_apart(a, other, b);
    text::lemma_words_apart(none, white, a);
    assert(none + white + a =~= white + a);
    assert(text::words(none) + text::words(a) =~= text::words(a));
    text::lemma_words_apart(a, white, none);
    assert(a + white + none =~= a + white);
    assert(text::words(a) + text::words(none) =~= text::words(a));
}

/// A normal form is the lowercase form of a text that has nothing to trim and single blanks
/// between its words; to collapse a text first does not change its normal form. A text of that
/// kind which lowercasing leaves as it is has itself for its normal form, and so has a normal form
/// of that kind.
pub proof fn law_normal_form_is_of_a_collapsed_text(s: Seq<char>)
    ensures
        normal_form(s) == text::lowercase(text::collapsed(s)),
        text::is_collapsed(text::collapsed(s)),
        text::trim(text::collapsed(s)) == text::collapsed(s),
        normal_form(text::collapsed(s)) == normal_form(s),
        text::is_collapsed(s) && text::lowercase(s) == s ==> normal_form(s) == s,
        text::is_collapsed(normal_form(s)) && text::lowercase(normal_form(s)) == normal_form(s)
            ==> normal_form(normal_form(s)) == normal_form(s),
{
    text::law_collapsing_happens_once(s);
    if text::is_collapsed(s) {
        text::law_collapsed_text_stays(s);
    }
    if text::is_collapsed(normal_form(s)) {
        text::law_collapsed_text_stays(normal_form(s));
    }
}

/// The normal form of a text whose words are of ASCII has nothing to trim and single blanks between
/// its words, and is its own normal form.
pub proof fn law_ascii_normal_form_stays(s: Seq<char>)
    requires
        text::all_ascii(text::collapsed(s)),
    ensures
        normal_form(s) == text::ascii_lowercase(text::collapsed(s)),
        text::is_collapsed(normal_form(s)),
        text::trim(normal_form(s)) == normal_form(s),
        normal_form(normal_form(s)) == normal_form(s),
{
    text::law_collapsing_happens_once(s);
    text::law_ascii_lowercasing_happens_once(text::collapsed(s));
    text::law_collapsed_text_stays(normal_form(s));
    text::law_collapsing_happens_once(normal_form(s));
}

} // verus!
