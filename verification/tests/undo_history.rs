use acord::undo::{EditKind, UndoHistory, UndoSnapshot, UNDO_MAX};

fn snap(text: &str, line: usize, col: usize) -> UndoSnapshot {
    UndoSnapshot { text: text.to_string(), cursor_line: line, cursor_col: col }
}

fn text_of(s: Option<UndoSnapshot>) -> Option<(String, usize, usize)> {
    s.map(|s| (s.text, s.cursor_line, s.cursor_col))
}

#[test]
fn typing_run_coalesces_into_one_step() {
    let mut h = UndoHistory::new();
    assert!(h.record_edit(EditKind::Insert, 10_000, snap("", 0, 0)));
    assert!(!h.record_edit(EditKind::Insert, 120, snap("a", 0, 1)));
    assert!(!h.record_edit(EditKind::Insert, 500, snap("ab", 0, 2)));
    assert!(h.record_edit(EditKind::Insert, 501, snap("abc", 0, 3)));
    assert!(h.record_edit(EditKind::Backspace, 10, snap("abcd", 0, 4)));
    assert!(h.record_edit(EditKind::Enter, 10, snap("abc", 0, 3)));
    assert!(h.record_edit(EditKind::Enter, 10, snap("abc\n", 1, 0)));
    assert!(h.record_edit(EditKind::Paste, 10, snap("abc\n\n", 2, 0)));
    assert_eq!(h.undo_len(), 6);
    assert_eq!(h.last_kind(), EditKind::Paste);
}

#[test]
fn undo_then_redo_round_trip() {
    let mut h = UndoHistory::new();
    h.record_edit(EditKind::Insert, 1000, snap("", 0, 0));
    let restored = h.undo(snap("hello", 0, 5));
    assert_eq!(text_of(restored), Some((String::new(), 0, 0)));
    assert_eq!(h.undo_len(), 0);
    assert_eq!(h.redo_len(), 1);
    assert_eq!(h.last_kind(), EditKind::Other);
    let again = h.redo(snap("", 0, 0));
    assert_eq!(text_of(again), Some(("hello".to_string(), 0, 5)));
    assert_eq!(h.undo_len(), 1);
    assert_eq!(h.redo_len(), 0);
}

#[test]
fn nothing_to_undo_or_redo() {
    let mut h = UndoHistory::new();
    assert!(h.undo(snap("x", 0, 1)).is_none());
    assert!(h.redo(snap("x", 0, 1)).is_none());
    assert_eq!(h.undo_len(), 0);
    assert_eq!(h.redo_len(), 0);
}

#[test]
fn new_edit_drops_redo_steps() {
    let mut h = UndoHistory::new();
    h.record_edit(EditKind::Insert, 1000, snap("", 0, 0));
    h.undo(snap("a", 0, 1));
    assert_eq!(h.redo_len(), 1);
    h.record_edit(EditKind::Insert, 1000, snap("", 0, 0));
    assert_eq!(h.redo_len(), 0);
}

#[test]
fn undo_stack_is_capped() {
    let mut h = UndoHistory::new();
    for i in 0..(UNDO_MAX + 5) {
        h.push(snap(&i.to_string(), 0, 0));
    }
    assert_eq!(h.undo_len(), UNDO_MAX);
    let top = h.undo(snap("now", 0, 0));
    assert_eq!(text_of(top).map(|t| t.0), Some((UNDO_MAX + 4).to_string()));
}
