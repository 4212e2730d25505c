use acord::caret::{
    auto_pair, byte_offset_for_cursor, fix_up, line_col_for_byte, newline_sandwich, replace_range,
    toggle_wrap, FixUp, WrapEdit,
};

fn paste(text: &str, back: usize) -> WrapEdit {
    WrapEdit::Paste { text: text.to_string(), back }
}

fn replace(text: &str, line: usize, col: usize) -> WrapEdit {
    WrapEdit::Replace { text: text.to_string(), line, col }
}

#[test]
fn cursor_to_byte_offset() {
    assert_eq!(byte_offset_for_cursor("ab\ncd", 1, 1), 4);
    assert_eq!(byte_offset_for_cursor("ab\ncd", 1, 10), 5);
    assert_eq!(byte_offset_for_cursor("ab\ncd", 0, 9), 2);
    assert_eq!(byte_offset_for_cursor("ab\ncd", 5, 0), 5);
    assert_eq!(byte_offset_for_cursor("é\nx", 0, 1), 2);
    assert_eq!(byte_offset_for_cursor("é\nx", 1, 1), 4);
    assert_eq!(byte_offset_for_cursor("", 0, 0), 0);
}

#[test]
fn byte_offset_to_line_col() {
    assert_eq!(line_col_for_byte("ab\ncd", 4), (1, 1));
    assert_eq!(line_col_for_byte("ab\ncd", 2), (0, 2));
    assert_eq!(line_col_for_byte("ab\ncd", 99), (1, 2));
    assert_eq!(line_col_for_byte("ab\n", 3), (0, 2));
    assert_eq!(line_col_for_byte("é\nx", 3), (1, 0));
    assert_eq!(line_col_for_byte("", 0), (0, 0));
}

#[test]
fn byte_offset_round_trip() {
    let text = "fn main() {\n    let x = 1;\n}\n";
    for b in 0..text.len() {
        let (l, c) = line_col_for_byte(text, b);
        assert_eq!(byte_offset_for_cursor(text, l, c), b);
    }
}

#[test]
fn newline_sandwich_pads_caret() {
    assert_eq!(newline_sandwich("foo   bar", 0, 4), ("foo\n\n\n\n\nbar".to_string(), 3, 0));
    assert_eq!(newline_sandwich("x = 1", 0, 5), ("x = 1\n\n\n".to_string(), 2, 0));
    assert_eq!(newline_sandwich("", 0, 0), ("\n".to_string(), 0, 0));
}

#[test]
fn replace_range_moves_caret_after_replacement() {
    assert_eq!(replace_range("hello world", 0, 5, "bye"), Some(("bye world".to_string(), 0, 3)));
    assert_eq!(replace_range("a\nb", 1, 2, "\nxy"), Some(("a\nxyb".to_string(), 1, 2)));
    assert_eq!(replace_range("abc", 2, 1, "x"), None);
    assert_eq!(replace_range("abc", 1, 4, "x"), None);
}

#[test]
fn wrap_without_selection_inserts_pair() {
    assert_eq!(toggle_wrap("ab", 0, 1, None, "**", "**"), paste("****", 2));
    assert_eq!(auto_pair("(", ")"), paste("()", 1));
    assert_eq!(toggle_wrap("ab", 0, 1, Some("zz"), "`", "`"), paste("``", 1));
}

#[test]
fn wrap_and_unwrap_bold() {
    assert_eq!(toggle_wrap("say hi now", 0, 6, Some("hi"), "**", "**"), paste("**hi**", 0));
    assert_eq!(toggle_wrap("say **hi** now", 0, 8, Some("hi"), "**", "**"), replace("say hi now", 0, 6));
    assert_eq!(toggle_wrap("say **hi** now", 0, 10, Some("**hi**"), "**", "**"), paste("hi", 0));
    assert_eq!(toggle_wrap("***b***", 0, 4, Some("b"), "**", "**"), paste("**b**", 0));
}

#[test]
fn wrap_and_unwrap_italic_and_code() {
    assert_eq!(toggle_wrap("a *b* c", 0, 4, Some("b"), "*", "*"), replace("a b c", 0, 3));
    assert_eq!(toggle_wrap("a **b** c", 0, 5, Some("b"), "*", "*"), paste("*b*", 0));
    assert_eq!(toggle_wrap("x `code` y", 0, 7, Some("code"), "`", "`"), replace("x code y", 0, 6));
    assert_eq!(toggle_wrap("x `code` y", 0, 8, Some("`code`"), "`", "`"), paste("code", 0));
    assert_eq!(toggle_wrap("x code y", 0, 6, Some("code"), "[", "]"), paste("[code]", 0));
}

#[test]
fn fix_up_closes_steps_or_sandwiches() {
    assert_eq!(fix_up("f(a, b", 0, 6), FixUp::Close(')'));
    assert_eq!(fix_up("ab)cd", 0, 1), FixUp::MoveTo { line: 0, col: 3 });
    assert_eq!(fix_up("x = [1,\n 2]", 1, 0), FixUp::Close(']'));
    assert_eq!(fix_up("a\nb)c", 0, 1), FixUp::MoveTo { line: 1, col: 2 });
    assert_eq!(
        fix_up("x = 1", 0, 5),
        FixUp::Sandwich { text: "x = 1\n\n\n".to_string(), line: 2, col: 0 }
    );
}
