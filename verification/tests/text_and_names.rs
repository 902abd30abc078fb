use vrun::name::sanitize;
use vrun::text::{normalize, trim_str};

#[test]
fn normalize_drops_trailing_whitespace_and_carriage_returns() {
    assert_eq!(normalize("a  \r\nb\t\n\n"), "a\nb\n");
    assert_eq!(normalize("1 2 3\n"), "1 2 3");
    assert_eq!(normalize(""), "");
    assert_eq!(normalize("\n"), "");
    assert_eq!(normalize("x\ry"), "x\ry");
}

#[test]
fn normalize_keeps_interior_and_leading_whitespace() {
    assert_eq!(normalize("  a b  \n c"), "  a b\n c");
}

#[test]
fn final_newline_does_not_change_normal_form() {
    assert_eq!(normalize("12\n34"), normalize("12\n34\n"));
    assert_eq!(normalize("12\r"), normalize("12\r\n"));
}

#[test]
fn trim_removes_unicode_whitespace() {
    assert_eq!(trim_str("\u{3000} x y\u{A0}\t"), "x y");
    assert_eq!(trim_str("   "), "");
}

#[test]
fn sanitize_collapses_runs_of_other_characters() {
    assert_eq!(sanitize("A. Eating Game"), "A_Eating_Game");
    assert_eq!(sanitize("  Hello, World!  "), "Hello_World");
    assert_eq!(sanitize("a__b--c"), "a_b_c");
    assert_eq!(sanitize("___"), "");
    assert_eq!(sanitize(""), "");
    assert_eq!(sanitize("Ünïcode 1"), "n_code_1");
}

#[test]
fn sanitize_twice_is_sanitize_once() {
    for s in ["A. Eating Game", " _x_ ", "é-é", "Problem #3 (hard)"] {
        let once = sanitize(s);
        assert_eq!(sanitize(&once), once);
    }
}

#[test]
fn sanitized_names_are_identifiers() {
    let s = sanitize("--C++ -- Round #900 (Div. 2) --");
    assert_eq!(s, "C_Round_900_Div_2");
    assert!(s.chars().all(|c| c.is_ascii_alphanumeric() || c == '_'));
    assert!(!s.contains("__"));
    assert!(!s.starts_with('_') && !s.ends_with('_'));
}

#[test]
fn spaces_and_tabs_before_line_feeds_are_ignored() {
    for s in ["1 2\n3\n", "a\r\nb", "\n\nx", "", "only"] {
        assert_eq!(normalize(&s.replace('\n', " \t\n")), normalize(s));
    }
}
