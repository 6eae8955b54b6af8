use std::path::PathBuf;

use typora::document::{
    CommandOutcome, CursorMove, DocVersion, DocumentError, DocumentState, EditorCommand,
    NewlineStyle, Selection, TextPosition,
};

#[test]
fn inserts_and_deletes_text_with_rope_indices() {
    let mut doc = DocumentState::from_text("hello");

    doc.apply(EditorCommand::MoveCursor(CursorMove::DocumentEnd))
        .unwrap();
    doc.apply(EditorCommand::InsertText(" 世界".to_string()))
        .unwrap();
    assert_eq!(doc.text(), "hello 世界");
    assert!(doc.dirty);

    doc.apply(EditorCommand::DeleteBackward).unwrap();
    assert_eq!(doc.text(), "hello 世");
}

#[test]
fn selection_replacement_is_single_undo_frame() {
    let mut doc = DocumentState::from_text("abcdef");
    doc.apply(EditorCommand::SetSelection(Selection {
        anchor: 1,
        head: 5,
    }))
    .unwrap();
    doc.apply(EditorCommand::InsertText("X".into())).unwrap();

    assert_eq!(doc.text(), "aXf");
    doc.apply(EditorCommand::Undo).unwrap();
    assert_eq!(doc.text(), "abcdef");
    assert_eq!(doc.selection, Selection { anchor: 1, head: 5 });
}

#[test]
fn char_position_round_trip_handles_unicode() {
    let doc = DocumentState::from_text("a\n中文🙂\nlast");
    let idx = doc.position_to_char(TextPosition {
        line: 1,
        character: 3,
    });
    assert_eq!(doc.char_to_position(idx).line, 1);
    assert_eq!(doc.char_to_position(idx).character, 3);
}

#[test]
fn vertical_cursor_movement_clamps_to_visible_line_width() {
    let mut doc = DocumentState::from_text("abcd\n中🙂\nxyz");
    doc.apply(EditorCommand::MoveCursor(CursorMove::ToPosition(
        TextPosition {
            line: 0,
            character: 4,
        },
    )))
    .unwrap();

    doc.apply(EditorCommand::MoveCursor(CursorMove::Down))
        .unwrap();
    assert_eq!(
        doc.char_to_position(doc.selection.cursor()),
        TextPosition {
            line: 1,
            character: 2
        }
    );

    doc.apply(EditorCommand::MoveCursor(CursorMove::Down))
        .unwrap();
    assert_eq!(
        doc.char_to_position(doc.selection.cursor()),
        TextPosition {
            line: 2,
            character: 2
        }
    );

    doc.apply(EditorCommand::MoveCursor(CursorMove::Up))
        .unwrap();
    assert_eq!(
        doc.char_to_position(doc.selection.cursor()),
        TextPosition {
            line: 1,
            character: 2
        }
    );
}

#[test]
fn save_command_is_request_not_file_io() {
    let mut doc = DocumentState::from_text("draft");
    assert_eq!(
        doc.apply(EditorCommand::Save).unwrap(),
        CommandOutcome::SaveRequested
    );
}

#[test]
fn selected_text_returns_none_for_empty_selection() {
    let doc = DocumentState::from_text("hello");
    assert!(doc.selected_text().is_none());
}

#[test]
fn selected_text_returns_selected_content() {
    let mut doc = DocumentState::from_text("hello world");
    doc.apply(EditorCommand::SetSelection(Selection {
        anchor: 0,
        head: 5,
    }))
    .unwrap();
    assert_eq!(doc.selected_text(), Some("hello".to_string()));
}

#[test]
fn text_range_returns_correct_substring() {
    let doc = DocumentState::from_text("hello world");
    assert_eq!(doc.text_range(0..5), "hello");
    assert_eq!(doc.text_range(6..11), "world");
    assert_eq!(doc.text_range(0..0), "");
}

#[test]
fn extend_selection_moves_head_keeping_anchor() {
    let mut doc = DocumentState::from_text("hello world");
    doc.apply(EditorCommand::SetSelection(Selection {
        anchor: 0,
        head: 5,
    }))
    .unwrap();

    doc.apply(EditorCommand::ExtendSelection(CursorMove::Right))
        .unwrap();
    assert_eq!(doc.selection.anchor, 0);
    assert_eq!(doc.selection.head, 6);

    doc.apply(EditorCommand::ExtendSelection(CursorMove::Left))
        .unwrap();
    assert_eq!(doc.selection.anchor, 0);
    assert_eq!(doc.selection.head, 5);
}

#[test]
fn extend_selection_with_unicode() {
    let mut doc = DocumentState::from_text("a中文b");
    doc.apply(EditorCommand::SetSelection(Selection {
        anchor: 1,
        head: 1,
    }))
    .unwrap();

    doc.apply(EditorCommand::ExtendSelection(CursorMove::Right))
        .unwrap();
    assert_eq!(doc.selection.head, 2);

    doc.apply(EditorCommand::ExtendSelection(CursorMove::Right))
        .unwrap();
    assert_eq!(doc.selection.head, 3);
}

#[test]
fn delete_after_cut_removes_selected_text() {
    let mut doc = DocumentState::from_text("hello world");
    doc.apply(EditorCommand::SetSelection(Selection {
        anchor: 0,
        head: 5,
    }))
    .unwrap();

    let cut_text = doc.selected_text().unwrap();
    assert_eq!(cut_text, "hello");

    doc.apply(EditorCommand::DeleteSelection).unwrap();
    assert_eq!(doc.text(), " world");
}

#[test]
fn undo_then_redo_restores_each_state() {
    let mut doc = DocumentState::from_text("abc");
    doc.apply(EditorCommand::MoveCursor(CursorMove::DocumentEnd))
        .unwrap();
    doc.apply(EditorCommand::InsertText("d".into())).unwrap();
    assert_eq!(doc.version, DocVersion(1));
    assert_eq!(
        doc.apply(EditorCommand::Undo).unwrap(),
        CommandOutcome::Changed
    );
    assert_eq!(doc.text(), "abc");
    assert_eq!(doc.selection, Selection::caret(3));
    assert!(!doc.dirty);
    assert_eq!(doc.version, DocVersion(2));
    assert_eq!(
        doc.apply(EditorCommand::Redo).unwrap(),
        CommandOutcome::Changed
    );
    assert_eq!(doc.text(), "abcd");
    assert_eq!(doc.selection, Selection::caret(4));
    assert!(doc.dirty);
    assert_eq!(
        doc.apply(EditorCommand::Redo).unwrap(),
        CommandOutcome::Unchanged
    );
}

#[test]
fn undo_with_empty_history_is_unchanged() {
    let mut doc = DocumentState::from_text("abc");
    assert_eq!(
        doc.apply(EditorCommand::Undo).unwrap(),
        CommandOutcome::Unchanged
    );
    assert_eq!(doc.version, DocVersion(0));
}

#[test]
fn new_edit_clears_redo_history() {
    let mut doc = DocumentState::from_text("");
    doc.apply(EditorCommand::InsertText("a".into())).unwrap();
    doc.apply(EditorCommand::Undo).unwrap();
    doc.apply(EditorCommand::InsertText("b".into())).unwrap();
    assert_eq!(
        doc.apply(EditorCommand::Redo).unwrap(),
        CommandOutcome::Unchanged
    );
    assert_eq!(doc.text(), "b");
}

#[test]
fn out_of_bounds_selection_is_refused() {
    let mut doc = DocumentState::from_text("abc");
    assert_eq!(
        doc.apply(EditorCommand::SetSelection(Selection { anchor: 7, head: 1 })),
        Err(DocumentError::SelectionOutOfBounds { index: 7, len: 3 })
    );
    assert_eq!(
        doc.set_selection(Selection { anchor: 1, head: 9 }),
        Err(DocumentError::SelectionOutOfBounds { index: 9, len: 3 })
    );
    doc.selection = Selection { anchor: 1, head: 9 };
    assert_eq!(
        doc.apply(EditorCommand::InsertText("x".into())),
        Err(DocumentError::SelectionOutOfBounds { index: 9, len: 3 })
    );
    assert_eq!(doc.text(), "abc");
    assert_eq!(doc.version, DocVersion(0));
}

#[test]
fn empty_insert_and_caret_delete_are_unchanged() {
    let mut doc = DocumentState::from_text("abc");
    assert_eq!(
        doc.apply(EditorCommand::InsertText(String::new())).unwrap(),
        CommandOutcome::Unchanged
    );
    assert_eq!(
        doc.apply(EditorCommand::DeleteSelection).unwrap(),
        CommandOutcome::Unchanged
    );
    assert_eq!(
        doc.apply(EditorCommand::DeleteBackward).unwrap(),
        CommandOutcome::Unchanged
    );
    assert!(!doc.dirty);
}

#[test]
fn cut_removes_selection_and_copy_keeps_it() {
    let mut doc = DocumentState::from_text("hello world");
    doc.apply(EditorCommand::SetSelection(Selection { anchor: 11, head: 5 }))
        .unwrap();
    assert_eq!(
        doc.apply(EditorCommand::Copy).unwrap(),
        CommandOutcome::Unchanged
    );
    assert_eq!(doc.text(), "hello world");
    assert_eq!(doc.apply(EditorCommand::Cut).unwrap(), CommandOutcome::Changed);
    assert_eq!(doc.text(), "hello");
    assert_eq!(doc.selection, Selection::caret(5));
    doc.apply(EditorCommand::Paste(" there".into())).unwrap();
    assert_eq!(doc.text(), "hello there");
}

#[test]
fn select_all_and_line_moves() {
    let mut doc = DocumentState::from_text("ab\r\ncd\n");
    doc.apply(EditorCommand::SelectAll).unwrap();
    assert_eq!(doc.selection, Selection { anchor: 0, head: 7 });
    assert_eq!(doc.line_count(), 3);
    assert_eq!(doc.line_text(0), Some("ab\r\n".to_string()));
    assert_eq!(doc.line_text(3), None);
    assert_eq!(doc.line_visible_char_count(0), 2);
    doc.apply(EditorCommand::MoveCursor(CursorMove::DocumentStart))
        .unwrap();
    doc.apply(EditorCommand::MoveCursor(CursorMove::LineEnd))
        .unwrap();
    assert_eq!(doc.selection, Selection::caret(2));
    doc.apply(EditorCommand::MoveCursor(CursorMove::Down)).unwrap();
    assert_eq!(doc.selection, Selection::caret(6));
    doc.apply(EditorCommand::MoveCursor(CursorMove::LineStart))
        .unwrap();
    assert_eq!(doc.selection, Selection::caret(4));
    doc.apply(EditorCommand::MoveCursor(CursorMove::Down)).unwrap();
    assert_eq!(doc.selection, Selection::caret(7));
    doc.apply(EditorCommand::MoveCursor(CursorMove::Down)).unwrap();
    assert_eq!(doc.selection, Selection::caret(7));
    doc.apply(EditorCommand::MoveCursor(CursorMove::Left)).unwrap();
    assert_eq!(doc.selection, Selection::caret(6));
    assert_eq!(doc.newline, NewlineStyle::Crlf);
}

#[test]
fn mark_saved_keeps_undo_dirty() {
    let mut doc = DocumentState::from_text("a");
    doc.apply(EditorCommand::InsertText("b".into())).unwrap();
    doc.mark_saved_as(PathBuf::from("notes.md"));
    assert!(!doc.dirty);
    assert_eq!(doc.path, Some(PathBuf::from("notes.md")));
    doc.apply(EditorCommand::Undo).unwrap();
    assert!(doc.dirty);
    assert_eq!(doc.text(), "a");
}

#[test]
fn save_as_is_a_request_with_its_path() {
    let mut doc = DocumentState::from_path_and_text(PathBuf::from("a.md"), "x");
    assert_eq!(doc.path, Some(PathBuf::from("a.md")));
    assert_eq!(
        doc.apply(EditorCommand::SaveAs(PathBuf::from("b.md"))).unwrap(),
        CommandOutcome::SaveAsRequested(PathBuf::from("b.md"))
    );
    assert_eq!(doc.path, Some(PathBuf::from("a.md")));
    doc.set_path(PathBuf::from("c.md"));
    assert_eq!(doc.path, Some(PathBuf::from("c.md")));
}

#[test]
fn newline_style_and_small_values() {
    assert_eq!(NewlineStyle::detect("a\r\nb"), NewlineStyle::Crlf);
    assert_eq!(NewlineStyle::detect("a\rb\n"), NewlineStyle::Lf);
    assert_eq!(NewlineStyle::Lf.as_str(), "\n");
    assert_eq!(NewlineStyle::Crlf.as_str(), "\r\n");
    assert_eq!(DocVersion(4).next(), DocVersion(5));
    let s = Selection { anchor: 9, head: 2 };
    assert_eq!(s.normalized(), 2..9);
    assert_eq!(s.cursor(), 2);
    assert!(!s.is_caret());
    assert!(Selection::caret(3).is_caret());
    let empty = DocumentState::empty();
    assert_eq!(empty.char_count(), 0);
    assert_eq!(empty.line_count(), 1);
    assert_ne!(DocumentState::empty().id, empty.id);
}

#[test]
fn char_to_position_clamps_and_counts_crlf_as_one_break() {
    let doc = DocumentState::from_text("ab\r\ncd");
    assert_eq!(doc.char_to_position(3), TextPosition { line: 0, character: 3 });
    assert_eq!(doc.char_to_position(4), TextPosition { line: 1, character: 0 });
    assert_eq!(doc.char_to_position(99), TextPosition { line: 1, character: 2 });
    assert_eq!(
        doc.position_to_char(TextPosition { line: 9, character: 9 }),
        6
    );
    let copy = doc.clone();
    assert_eq!(copy.text(), doc.text());
}

#[test]
fn text_range_takes_byte_offsets() {
    let doc = DocumentState::from_text("a中文b");
    assert_eq!(doc.text_range(0..4), "a中");
    assert_eq!(doc.text_range(1..7), "中文");
    assert_eq!(doc.text_range(7..100), "b");
    assert_eq!(doc.text_range(4..1), "");
}

#[test]
fn accessors_read_the_document() {
    let mut doc = DocumentState::from_path_and_text(PathBuf::from("a.md"), "x\r\ny");
    assert_eq!(doc.path(), Some(&PathBuf::from("a.md")));
    assert_eq!(doc.newline(), NewlineStyle::Crlf);
    assert_eq!(doc.selection(), Selection::caret(0));
    assert!(!doc.is_dirty());
    doc.apply(EditorCommand::InsertText("z".into())).unwrap();
    assert!(doc.is_dirty());
    assert_eq!(doc.version(), DocVersion(1));
    assert_eq!(doc.id(), doc.id);
}

#[test]
fn undo_raises_version_and_redo_after_new_edit_does_nothing() {
    let mut doc = DocumentState::from_text("ab");
    doc.apply(EditorCommand::InsertText("c".into())).unwrap();
    assert_eq!(doc.apply(EditorCommand::Undo).unwrap(), CommandOutcome::Changed);
    assert_eq!(doc.text(), "ab");
    assert_eq!(doc.version(), DocVersion(2));
    doc.apply(EditorCommand::InsertText("d".into())).unwrap();
    let before = doc.text();
    assert_eq!(doc.apply(EditorCommand::Redo).unwrap(), CommandOutcome::Unchanged);
    assert_eq!(doc.text(), before);
    assert_eq!(doc.version(), DocVersion(3));
}

#[test]
fn extend_moves_head_like_a_caret() {
    let mut extended = DocumentState::from_text("ab\ncdef");
    extended.apply(EditorCommand::SetSelection(Selection { anchor: 6, head: 1 })).unwrap();
    extended.apply(EditorCommand::ExtendSelection(CursorMove::Down)).unwrap();
    let mut caret = DocumentState::from_text("ab\ncdef");
    caret.apply(EditorCommand::SetSelection(Selection::caret(1))).unwrap();
    caret.apply(EditorCommand::MoveCursor(CursorMove::Down)).unwrap();
    assert_eq!(extended.selection(), Selection { anchor: 6, head: caret.selection().head });
    assert_eq!(extended.selection().head, 4);
}

#[test]
fn selection_stays_in_bounds_and_only_bad_selections_fail() {
    let mut doc = DocumentState::from_text("abc");
    doc.apply(EditorCommand::SelectAll).unwrap();
    doc.apply(EditorCommand::Cut).unwrap();
    doc.apply(EditorCommand::Undo).unwrap();
    doc.apply(EditorCommand::MoveCursor(CursorMove::DocumentEnd)).unwrap();
    assert!(doc.selection().head <= doc.char_count());
    assert!(doc.apply(EditorCommand::SetSelection(Selection::caret(4))).is_err());
    assert!(doc.apply(EditorCommand::SetSelection(Selection::caret(3))).is_ok());
}

#[test]
fn lf_text_positions_round_trip() {
    let doc = DocumentState::from_text("ab\n\nxyz\n");
    for i in 0..=doc.char_count() {
        assert_eq!(doc.position_to_char(doc.char_to_position(i)), i);
    }
    let p = TextPosition { line: 2, character: 3 };
    assert_eq!(doc.char_to_position(doc.position_to_char(p)), p);
}
