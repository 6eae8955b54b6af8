use typora::document::{CursorMove, DocumentState, Selection};
use typora::editing::{selection_for_region, EditAction};

fn with_selection(text: &str, anchor: usize, head: usize) -> DocumentState {
    let mut doc = DocumentState::from_text(text);
    doc.selection = Selection { anchor, head };
    doc
}

#[test]
fn copy_hands_out_selection_and_keeps_text() {
    let mut doc = with_selection("héllo world", 6, 1);
    let clip = doc.handle_edit_action(EditAction::Copy);
    assert_eq!(clip.as_deref(), Some("éllo "));
    assert_eq!(doc.text(), "héllo world");
    assert!(!doc.dirty);
    assert_eq!(doc.selection, Selection { anchor: 6, head: 1 });
}

#[test]
fn copy_of_caret_hands_out_nothing() {
    let mut doc = with_selection("abc", 2, 2);
    assert_eq!(doc.handle_edit_action(EditAction::Copy), None);
    assert_eq!(doc.handle_edit_action(EditAction::Cut), None);
    assert_eq!(doc.text(), "abc");
}

#[test]
fn cut_hands_out_selection_and_removes_it() {
    let mut doc = with_selection("abcdef", 1, 4);
    let clip = doc.handle_edit_action(EditAction::Cut);
    assert_eq!(clip.as_deref(), Some("bcd"));
    assert_eq!(doc.text(), "aef");
    assert_eq!(doc.selection, Selection::caret(1));
    assert!(doc.dirty);
    doc.handle_edit_action(EditAction::Undo);
    assert_eq!(doc.text(), "abcdef");
    doc.handle_edit_action(EditAction::Redo);
    assert_eq!(doc.text(), "aef");
}

#[test]
fn paste_and_typing_replace_the_selection() {
    let mut doc = with_selection("one two", 4, 7);
    assert_eq!(doc.handle_edit_action(EditAction::Paste("2".to_string())), None);
    assert_eq!(doc.text(), "one 2");
    doc.handle_edit_action(EditAction::Type("x".to_string()));
    assert_eq!(doc.text(), "one 2x");
    assert_eq!(doc.selection, Selection::caret(6));
}

#[test]
fn delete_forward_removes_character_after_caret() {
    let mut doc = with_selection("abc", 1, 1);
    doc.handle_edit_action(EditAction::DeleteForward);
    assert_eq!(doc.text(), "ac");
    assert_eq!(doc.selection, Selection::caret(1));
}

#[test]
fn delete_forward_at_end_removes_character_before_caret() {
    let mut doc = with_selection("abc", 3, 3);
    doc.handle_edit_action(EditAction::DeleteForward);
    assert_eq!(doc.text(), "ab");
    assert_eq!(doc.selection, Selection::caret(2));
}

#[test]
fn delete_backward_newline_and_tab_requests() {
    let mut doc = with_selection("ab", 2, 2);
    doc.handle_edit_action(EditAction::InsertNewLine);
    doc.handle_edit_action(EditAction::InsertTab);
    assert_eq!(doc.text(), "ab\n\t");
    doc.handle_edit_action(EditAction::DeleteBackward);
    assert_eq!(doc.text(), "ab\n");
    assert_eq!(doc.version.0, 3);
}

#[test]
fn move_extend_and_select_all_requests() {
    let mut doc = with_selection("ab\ncd", 0, 0);
    doc.handle_edit_action(EditAction::Move(CursorMove::Down));
    assert_eq!(doc.selection, Selection::caret(3));
    doc.handle_edit_action(EditAction::Extend(CursorMove::LineEnd));
    assert_eq!(doc.selection, Selection { anchor: 3, head: 5 });
    doc.handle_edit_action(EditAction::SelectAll);
    assert_eq!(doc.selection, Selection { anchor: 0, head: 5 });
    assert!(!doc.dirty);
}

#[test]
fn replace_range_splices_content() {
    let mut doc = DocumentState::from_text("hello world");
    doc.replace_range(6, 11, "there");
    assert_eq!(doc.text(), "hello there");
    assert_eq!(doc.selection, Selection::caret(11));
    assert_eq!(doc.version.0, 2);
}

#[test]
fn replace_range_deletes_or_inserts_alone() {
    let mut doc = DocumentState::from_text("abcdef");
    doc.replace_range(1, 3, "");
    assert_eq!(doc.text(), "adef");
    assert_eq!(doc.selection, Selection::caret(1));
    doc.replace_range(4, 4, "g");
    assert_eq!(doc.text(), "adefg");
    assert_eq!(doc.selection, Selection::caret(5));
    doc.replace_range(2, 2, "");
    assert_eq!(doc.text(), "adefg");
    assert_eq!(doc.selection, Selection::caret(5));
}

#[test]
fn selection_for_region_keeps_anchor() {
    assert_eq!(selection_for_region(7, 3, 3), Selection::caret(3));
    assert_eq!(selection_for_region(2, 2, 5), Selection { anchor: 2, head: 5 });
    assert_eq!(selection_for_region(5, 2, 5), Selection { anchor: 5, head: 2 });
    assert_eq!(selection_for_region(9, 2, 5), Selection { anchor: 2, head: 5 });
}
