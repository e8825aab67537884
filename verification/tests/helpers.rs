//! Instants and names as text.
use chronicle_core::helpers::{isoformat, normalize_string_exact};
use chronicle_core::time::Timestamp;

#[test]
fn isoformat_matches_python_datetime_isoformat() {
    let zero = Timestamp::from_parts(1_767_225_600, 0).unwrap();
    assert_eq!(isoformat(zero), "2026-01-01T00:00:00+00:00");
    let micro = Timestamp::from_parts(1_767_225_600, 123_456_000).unwrap();
    assert_eq!(isoformat(micro), "2026-01-01T00:00:00.123456+00:00");
    let milli = Timestamp::from_parts(1_767_225_600, 123_000_000).unwrap();
    assert_eq!(isoformat(milli), "2026-01-01T00:00:00.123000+00:00");
    let nano = Timestamp::from_parts(1_767_225_600, 123_456_789).unwrap();
    assert_eq!(isoformat(nano), "2026-01-01T00:00:00.123456+00:00");
}

#[test]
fn normalize_collapses_whitespace_and_lowercases() {
    assert_eq!(normalize_string_exact("  Alice   SMITH "), "alice smith");
    assert_eq!(normalize_string_exact(""), "");
    assert_eq!(normalize_string_exact("\t Alice \n SMITH\t"), "alice smith");
    assert_eq!(normalize_string_exact("  "), "");
    assert_eq!(normalize_string_exact("ok"), "ok");
}

#[test]
fn white_space_does_not_change_a_normal_form() {
    assert_eq!(normalize_string_exact("Ada \t\n Lovelace"), normalize_string_exact("Ada\u{3000}Lovelace"));
    assert_eq!(normalize_string_exact(" \tAda"), normalize_string_exact("Ada"));
    assert_eq!(normalize_string_exact("Ada\n"), normalize_string_exact("Ada"));
}

#[test]
fn a_normal_form_is_its_own_normal_form() {
    for text in ["  Alice   SMITH ", "\u{130}stanbul\t\u{c9}T\u{c9}", "", " \n "] {
        let normal = normalize_string_exact(text);
        assert_eq!(normal.trim(), normal);
        assert_eq!(normalize_string_exact(&normal), normal);
    }
}

#[test]
fn ascii_is_lowercased_letter_by_letter() {
    let text: String = (0x21u8..0x7f).map(char::from).collect();
    assert_eq!(normalize_string_exact(&text), text.to_ascii_lowercase());
    let controls: String = (0u8..0x80)
        .map(char::from)
        .filter(|c| !c.is_whitespace())
        .collect();
    let normal = normalize_string_exact(&controls);
    assert_eq!(normal, controls.to_ascii_lowercase());
    assert_eq!(normalize_string_exact(&normal), normal);
    assert_eq!(normalize_string_exact("\u{b}A\u{c}B\rC"), "a b c");
}
