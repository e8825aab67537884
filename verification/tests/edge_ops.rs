//! Facts drawn from episodes.
use chronicle_core::helpers::isoformat;
use chronicle_core::pipeline::edge_ops::{
    parse_iso_or_warn, python_repr_edge_context, python_repr_str,
};
use chronicle_core::types::EntityEdge;

#[test]
fn parse_iso_handles_z_suffix() {
    let dt = parse_iso_or_warn("2025-04-30T00:00:00Z").unwrap();
    assert_eq!(isoformat(dt), "2025-04-30T00:00:00+00:00");
}

#[test]
fn parse_iso_returns_none_on_garbage() {
    assert!(parse_iso_or_warn("not-a-date").is_none());
}

#[test]
fn python_repr_str_single_quotes_by_default() {
    assert_eq!(
        python_repr_str("Alice works at Acme"),
        "'Alice works at Acme'"
    );
}

#[test]
fn python_repr_str_switches_to_double_quotes_with_apostrophe() {
    assert_eq!(python_repr_str("Bob's job"), "\"Bob's job\"");
}

#[test]
fn python_repr_str_escapes_when_both_quotes_present() {
    assert_eq!(python_repr_str("a'b\"c"), "'a\\'b\"c'");
}

#[test]
fn python_repr_str_escapes_newline() {
    assert_eq!(python_repr_str("a\nb"), "'a\\nb'");
}

#[test]
fn python_repr_str_escapes_tab() {
    assert_eq!(python_repr_str("a\tb"), "'a\\tb'");
}

#[test]
fn python_repr_str_escapes_carriage_return() {
    assert_eq!(python_repr_str("a\rb"), "'a\\rb'");
}

#[test]
fn python_repr_str_escapes_nul() {
    assert_eq!(python_repr_str("a\x00b"), "'a\\x00b'");
}

#[test]
fn python_repr_str_escapes_del() {
    assert_eq!(python_repr_str("a\x7fb"), "'a\\x7fb'");
}

#[test]
fn python_repr_str_escapes_0x85_nel() {
    assert_eq!(python_repr_str("a\u{0085}b"), "'a\\x85b'");
}

#[test]
fn python_repr_str_escapes_0xa0_nbsp() {
    assert_eq!(python_repr_str("a\u{00a0}b"), "'a\\xa0b'");
}

#[test]
fn python_repr_str_passes_through_0xa1_printable() {
    assert_eq!(python_repr_str("\u{00a1}"), "'\u{00a1}'");
}

#[test]
fn python_repr_str_mixed_newline_and_apostrophe() {
    assert_eq!(python_repr_str("a\nb'c"), "\"a\\nb'c\"");
}

#[test]
fn python_repr_edge_context_offsets_indices() {
    let mut e0 = EntityEdge::new(
        "s".into(),
        "t".into(),
        "R".into(),
        "fact zero".into(),
        "g".into(),
    );
    e0.uuid = "e0".into();
    let mut e1 = EntityEdge::new(
        "s".into(),
        "t".into(),
        "R".into(),
        "fact one".into(),
        "g".into(),
    );
    e1.uuid = "e1".into();
    let rendered = python_repr_edge_context(&[e0, e1], 3);
    assert_eq!(
        rendered,
        "[{'idx': 3, 'fact': 'fact zero'}, {'idx': 4, 'fact': 'fact one'}]"
    );
}

#[test]
fn a_python_literal_has_no_control_character() {
    assert_eq!(
        python_repr_str("\u{0}\u{1f}\u{7f}\u{85}\u{a0}\u{a1}\t\r"),
        "'\\x00\\x1f\\x7f\\x85\\xa0\u{a1}\\t\\r'"
    );
    let all: String = (0u32..0x100).filter_map(char::from_u32).collect();
    let literal = python_repr_str(&all);
    assert!(literal.chars().all(|c| !c.is_control() && c != '\u{a0}'));
    assert!(literal.starts_with('\'') && literal.ends_with('\''));
}

#[test]
fn different_texts_have_different_python_literals() {
    let texts = ["", "'", "\"", "'\"", "\\", "\\n", "\n", "\\x00", "\u{0}", "n", "\\'", "it's"];
    for (i, a) in texts.iter().enumerate() {
        for b in &texts[i + 1..] {
            assert_ne!(python_repr_str(a), python_repr_str(b));
        }
    }
}
