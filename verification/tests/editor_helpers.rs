use acord::editor::{lang_from_extension, leading_whitespace, next_closing_delim_after, toggle_blockquote};
use acord::editor::{
    count_leading_char, count_trailing_char, enabled, flags, innermost_unclosed_delim,
    is_result_line, parse_image_ref, parse_let_binding, set_flags, strip_result_lines, AutoPair,
    FindState, LineIndicator, SettingsView, ALL, BRACE, PAREN,
};

#[test]
fn line_indicator_from_setting() {
    assert_eq!(LineIndicator::from_str("off"), LineIndicator::Off);
    assert_eq!(LineIndicator::from_str("vim"), LineIndicator::Vim);
    assert_eq!(LineIndicator::from_str("on"), LineIndicator::On);
    assert_eq!(LineIndicator::from_str("anything"), LineIndicator::On);
}

#[test]
fn settings_and_find_defaults() {
    let s = SettingsView::default();
    assert_eq!(s.theme_mode, "auto");
    assert_eq!(s.line_indicator, "on");
    assert!(s.gutter_rainbow);
    assert_eq!(s.auto_save_dir, "");
    let f = FindState::new();
    assert!(!f.visible && f.query.is_empty() && f.matches.is_empty() && f.current == 0);
}

#[test]
fn auto_pair_flags() {
    let mut st = AutoPair { bits: ALL };
    assert!(enabled(&st, PAREN));
    set_flags(&mut st, PAREN);
    assert_eq!(flags(&st), 1);
    assert!(!enabled(&st, BRACE));
}

#[test]
fn auto_pair_starts_with_every_pair_on() {
    let st = AutoPair::new();
    assert_eq!(flags(&st), 63);
    assert_eq!(flags(&st), ALL);
    assert!(enabled(&st, PAREN) && enabled(&st, BRACE));
}

#[test]
fn result_lines_are_stripped() {
    let c: Vec<char> = "   → 42".chars().collect();
    assert!(is_result_line(&c));
    let e: Vec<char> = "⚠ boom".chars().collect();
    assert!(is_result_line(&e));
    let t: Vec<char> = "x = 1".chars().collect();
    assert!(!is_result_line(&t));
    assert_eq!(strip_result_lines("a\n→ 1\nb\n⚠ e\n"), "a\nb\n");
    assert_eq!(strip_result_lines("→ 1"), "");
}

#[test]
fn let_bindings() {
    assert_eq!(parse_let_binding("let x = 5"), Some("x".to_string()));
    assert_eq!(parse_let_binding("let total: int = 3"), Some("total".to_string()));
    assert_eq!(parse_let_binding("let x == 5"), None);
    assert_eq!(parse_let_binding("let a b = 5"), None);
    assert_eq!(parse_let_binding("x = 5"), None);
    assert_eq!(parse_let_binding("let x"), None);
}

#[test]
fn delimiters_and_counts() {
    assert_eq!(innermost_unclosed_delim("f(a[1], {"), Some('}'));
    assert_eq!(innermost_unclosed_delim("f(a[1])"), None);
    assert_eq!(innermost_unclosed_delim("(]"), Some(')'));
    assert_eq!(count_leading_char("###x#", '#'), 3);
    assert_eq!(count_trailing_char("ab))", ')'), 2);
    assert_eq!(count_trailing_char("", ')'), 0);
}

#[test]
fn image_refs() {
    assert_eq!(
        parse_image_ref("  ![a cat](  cat.png )"),
        Some(("a cat".to_string(), "cat.png".to_string()))
    );
    assert_eq!(parse_image_ref("![x]( )"), None);
    assert_eq!(parse_image_ref("![x] (y)"), None);
    assert_eq!(parse_image_ref("[x](y)"), None);
}

#[test]
fn languages_and_scopes() {
    assert_eq!(lang_from_extension("rs"), Some("rust".to_string()));
    assert_eq!(lang_from_extension("hxx"), Some("cpp".to_string()));
    assert_eq!(lang_from_extension("cordial"), Some("rust".to_string()));
    assert_eq!(lang_from_extension("RS"), None);
    assert_eq!(leading_whitespace("  \tx y"), "  \t");
    assert_eq!(leading_whitespace("x"), "");
    assert_eq!(next_closing_delim_after("f(a, [b], c)", 2), Some(11));
    assert_eq!(next_closing_delim_after("f(a", 2), None);
    assert_eq!(next_closing_delim_after("ab", 9), None);
}

#[test]
fn find_matches_case_insensitive_with_positions() {
    let mut f = FindState::new();
    f.query = "HELLO".to_string();
    f.current = 3;
    f.update_matches("Hello world\nsay hello");
    assert_eq!(f.matches, vec![(0, 0), (1, 4)]);
    assert_eq!(f.current, 0);
    assert_eq!(f.current_match(), Some((0, 0)));
    f.current = 9;
    assert_eq!(f.current_match(), Some((1, 4)));
}

#[test]
fn find_matches_overlap_and_empty_query() {
    let mut f = FindState::new();
    f.query = "aa".to_string();
    f.update_matches("aaa\n\naa");
    assert_eq!(f.matches, vec![(0, 0), (0, 1), (2, 0)]);
    f.query = String::new();
    f.update_matches("aaa");
    assert!(f.matches.is_empty());
    assert_eq!(f.current_match(), None);
}

#[test]
fn blockquote_toggles_on_cursor_line() {
    assert_eq!(toggle_blockquote("a\nb\nc", 1), Some("a\n> b\nc".to_string()));
    assert_eq!(toggle_blockquote("a\n> b", 7), Some("a\nb".to_string()));
    assert_eq!(toggle_blockquote("x\n", 0), Some("> x".to_string()));
    assert_eq!(toggle_blockquote(">b", 0), Some("> >b".to_string()));
    assert_eq!(toggle_blockquote("", 0), None);
}

#[test]
fn replace_all_replaces_every_match_case_insensitively() {
    let mut f = FindState::new();
    f.query = "foo".to_string();
    f.replacement = "baz".to_string();
    f.update_matches("Foo bar FOO\nfoo");
    assert_eq!(f.replace_all("Foo bar FOO\nfoo"), Some("baz bar baz\nbaz".to_string()));
    f.query = "aa".to_string();
    f.replacement = "b".to_string();
    f.update_matches("aaa");
    assert_eq!(f.replace_all("aaa"), Some("ba".to_string()));
}

#[test]
fn replace_needs_a_query_and_a_match() {
    let mut f = FindState::new();
    assert_eq!(f.replace_all("abc"), None);
    assert_eq!(f.replace_current("abc"), None);
    f.query = "zz".to_string();
    f.update_matches("abc");
    assert_eq!(f.replace_all("abc"), None);
    assert_eq!(f.replace_current("abc"), None);
}

#[test]
fn replace_current_replaces_only_the_current_match() {
    let mut f = FindState::new();
    f.query = "foo".to_string();
    f.replacement = "baz".to_string();
    let text = "one\nFoo two foo\n";
    f.update_matches(text);
    assert_eq!(f.matches, vec![(1, 0), (1, 8)]);
    f.current = 1;
    assert_eq!(f.replace_current(text), Some("one\nFoo two baz".to_string()));
    f.current = 0;
    assert_eq!(f.replace_current(text), Some("one\nbaz two foo".to_string()));
}
