use typora::display::{
    byte_to_char_idx, char_to_byte_offset, cursor_visual_position, soft_wrap_text,
    text_position_to_visual_position, visual_position_to_text_position,
};
use typora::document::{CursorMove, DocumentState, EditorCommand, TextPosition};
use typora::markdown_parser::MarkdownParser;
use typora::render::preview_text_from_snapshot;

const MAX_SOURCE_WRAP_COLUMNS: usize = 38;
const DEFAULT_SOURCE_WRAP_COLUMNS: usize = MAX_SOURCE_WRAP_COLUMNS;

const SAMPLE: &str = "# Typora Rust\n\nStart writing on the left; the preview model renders on the right.\n\n- Ropey document core\n- Comrak + tree-sitter snapshot\n- Floem native shell\n\n```rust\nfn main() {\n    println!(\"hello markdown\");\n}\n```\n";

#[test]
fn source_display_soft_wraps_long_lines() {
    let long_line = "a".repeat(DEFAULT_SOURCE_WRAP_COLUMNS + 5);
    let document = DocumentState::from_text(&long_line);
    let display = soft_wrap_text(&document.text(), DEFAULT_SOURCE_WRAP_COLUMNS);

    assert!(display.contains('\n'));
    assert!(
        display
            .lines()
            .all(|line| line.chars().count() <= DEFAULT_SOURCE_WRAP_COLUMNS)
    );
    assert!(!display.contains('|'));
}

#[test]
fn sample_source_wraps_before_the_pane_divider() {
    let document = DocumentState::from_text(SAMPLE);
    let display = soft_wrap_text(&document.text(), DEFAULT_SOURCE_WRAP_COLUMNS);

    assert!(display.contains("the preview\n model renders"));
    assert!(
        display
            .lines()
            .all(|line| line.chars().count() <= MAX_SOURCE_WRAP_COLUMNS)
    );
}

#[test]
fn mouse_position_accounts_for_soft_wrapped_rows() {
    let long_line = "a".repeat(DEFAULT_SOURCE_WRAP_COLUMNS + 10);
    let document = DocumentState::from_text(&format!("{long_line}\nsecond"));

    assert_eq!(
        visual_position_to_text_position(&document, 1, 3, DEFAULT_SOURCE_WRAP_COLUMNS),
        TextPosition {
            line: 0,
            character: DEFAULT_SOURCE_WRAP_COLUMNS + 3
        }
    );
    assert_eq!(
        visual_position_to_text_position(&document, 2, 2, DEFAULT_SOURCE_WRAP_COLUMNS),
        TextPosition {
            line: 1,
            character: 2
        }
    );
}

#[test]
fn caret_overlay_position_does_not_mutate_display_text() {
    let mut document = DocumentState::from_text("abcd\nefgh");
    document
        .apply(EditorCommand::MoveCursor(CursorMove::ToPosition(TextPosition {
            line: 1,
            character: 2,
        })))
        .unwrap();
    let copy = document.clone();

    assert_eq!(
        cursor_visual_position(&document, DEFAULT_SOURCE_WRAP_COLUMNS),
        (1, 2)
    );
    assert_eq!(copy.text(), "abcd\nefgh");
}

#[test]
fn backspace_deletes_character_left_of_visual_caret() {
    let mut document = DocumentState::from_text("abcd");
    document
        .apply(EditorCommand::MoveCursor(CursorMove::ToPosition(TextPosition {
            line: 0,
            character: 2,
        })))
        .unwrap();

    assert_eq!(
        cursor_visual_position(&document, DEFAULT_SOURCE_WRAP_COLUMNS),
        (0, 2)
    );

    document.apply(EditorCommand::DeleteBackward).unwrap();

    assert_eq!(document.text(), "acd");
    assert_eq!(
        cursor_visual_position(&document, DEFAULT_SOURCE_WRAP_COLUMNS),
        (0, 1)
    );
}

#[test]
fn app_preview_drops_raw_markdown_fences() {
    let document = DocumentState::from_text(
        "# Title\n\nA **bold** paragraph.\n\n```rust\nfn main() {}\n```\n",
    );
    let mut parser = MarkdownParser::new().unwrap();
    let snapshot = parser.parse(document.id, document.version, &document.text());
    let preview_text = preview_text_from_snapshot(&snapshot);

    assert!(preview_text.contains("Title"));
    assert!(preview_text.contains("A bold paragraph."));
    assert!(preview_text.contains("Code (rust)"));
    assert!(!preview_text.contains("```"));
    assert!(!preview_text.contains("**"));
}

#[test]
fn soft_wrap_breaks_at_exact_width_and_keeps_final_newline() {
    assert_eq!(soft_wrap_text("abcdef\ngh\n", 3), "abc\ndef\ngh\n");
    assert_eq!(soft_wrap_text("abc", 0), "a\nb\nc");
    assert_eq!(soft_wrap_text("", 4), "");
    assert_eq!(soft_wrap_text("x\r\n\ny", 4), "x\n\ny");
}

#[test]
fn visual_positions_round_trip_within_lines() {
    let document = DocumentState::from_text("abcdefg\n中文\n");
    for (line, character) in [(0, 0), (0, 3), (0, 6), (0, 7), (1, 1), (2, 0)] {
        let p = TextPosition { line, character };
        let (row, col) = text_position_to_visual_position(&document, p, 3);
        assert_eq!(visual_position_to_text_position(&document, row, col, 3), p);
    }
    assert_eq!(
        text_position_to_visual_position(&document, TextPosition { line: 1, character: 9 }, 3),
        (3, 2)
    );
    assert_eq!(
        visual_position_to_text_position(&document, 40, 7, 3),
        TextPosition { line: 2, character: 0 }
    );
}

#[test]
fn byte_and_char_offsets_round_trip() {
    let text = "aé中🙂z";
    let offsets: Vec<usize> = (0..=6).map(|i| char_to_byte_offset(text, i)).collect();
    assert_eq!(offsets, vec![0, 1, 3, 6, 10, 11, 11]);
    for i in 0..=5 {
        assert_eq!(byte_to_char_idx(text, char_to_byte_offset(text, i)), i);
    }
    assert_eq!(byte_to_char_idx(text, 99), 5);
}
