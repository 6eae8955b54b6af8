use typora::document::{DocVersion, DocumentId};
use typora::markdown::{
    block_for_line, dirty_line_range, line_lookup, scan_blocks, BlockId, MarkdownBlockKind,
    SourceSpan,
};
use typora::markdown_parser::MarkdownParser;

#[test]
fn parser_extracts_outline_and_gfm_html() {
    let mut parser = MarkdownParser::new().unwrap();
    let snapshot = parser.parse(
        DocumentId(1),
        DocVersion(1),
        "# Title\n\n- [x] done\n\n| A | B |\n| - | - |\n| 1 | 2 |\n",
    );

    assert_eq!(snapshot.outline.len(), 1);
    assert!(snapshot.html.contains("<table>"));
    assert!(
        snapshot
            .blocks
            .iter()
            .any(|block| matches!(block.kind, MarkdownBlockKind::TaskList))
    );
}

#[test]
fn block_scanner_tracks_code_fences_and_source_lines() {
    let blocks = scan_blocks("# T\n\n```rust\nfn main() {}\n```\n\ntext");
    assert!(matches!(
        blocks[1].kind,
        MarkdownBlockKind::CodeBlock {
            language: Some(ref lang)
        } if lang == "rust"
    ));
    assert_eq!(blocks[1].source_span.start_line, 2);
    assert_eq!(blocks[1].source_span.end_line, 4);
}

#[test]
fn block_for_line_uses_nearest_previous_block() {
    let blocks = scan_blocks("# A\n\nparagraph\n\n# B");
    let block = block_for_line(&blocks, 3).unwrap();
    assert_eq!(block.source_span.start_line, 2);
}

#[test]
fn dirty_range_finds_changed_middle() {
    assert_eq!(dirty_line_range("a\nb\nc", "a\nB\nc"), 1..2);
}

#[test]
fn scanner_classifies_every_block_kind() {
    let text = "## Sub title ##\n\n---\n\n| a | b |\n|:-:|---|\n| 1 | 2 |\n\n> one\n> two\n\n- [ ] todo\n* [X] done\n\n1. first\n2. second\n\n<div>\nhi\n</div>\n\nplain\ntext\n# next";
    let blocks = scan_blocks(text);
    let kinds: Vec<_> = blocks.iter().map(|b| b.kind.clone()).collect();
    assert_eq!(
        kinds,
        vec![
            MarkdownBlockKind::Heading { level: 2, title: "Sub title".to_string() },
            MarkdownBlockKind::Rule,
            MarkdownBlockKind::Table,
            MarkdownBlockKind::Quote,
            MarkdownBlockKind::TaskList,
            MarkdownBlockKind::List,
            MarkdownBlockKind::Html,
            MarkdownBlockKind::Paragraph,
            MarkdownBlockKind::Heading { level: 1, title: "next".to_string() },
        ]
    );
    for (i, block) in blocks.iter().enumerate() {
        assert_eq!(block.id, BlockId(i as u64 + 1));
    }
    assert_eq!(blocks[3].text, "> one\n> two");
    assert_eq!(blocks[7].text, "plain\ntext");
    assert_eq!(
        blocks[7].source_span,
        SourceSpan { start_line: 21, end_line: 22, start_char: 126, end_char: 137 }
    );
}

#[test]
fn unclosed_fence_runs_to_the_end_and_headings_need_a_space() {
    let blocks = scan_blocks("~~~\ncode\n\n#nospace\n####### seven");
    assert_eq!(blocks.len(), 1);
    assert_eq!(blocks[0].kind, MarkdownBlockKind::CodeBlock { language: None });
    let blocks = scan_blocks("#nospace\n####### seven\n\r\n  \n");
    assert_eq!(blocks.len(), 1);
    assert_eq!(blocks[0].kind, MarkdownBlockKind::Paragraph);
    assert_eq!(blocks[0].source_span.end_line, 1);
    assert!(scan_blocks("").is_empty());
}

#[test]
fn line_lookup_prefers_holding_span_then_last_started() {
    let spans = [
        SourceSpan { start_line: 0, end_line: 1, start_char: 0, end_char: 4 },
        SourceSpan { start_line: 3, end_line: 5, start_char: 6, end_char: 12 },
    ];
    assert_eq!(line_lookup(&spans, 4), Some(1));
    assert_eq!(line_lookup(&spans, 2), Some(0));
    assert_eq!(line_lookup(&spans, 9), Some(1));
    assert_eq!(line_lookup(&[], 0), None);
    assert!(spans[1].contains_line(5));
    assert!(!spans[1].contains_line(6));
}

#[test]
fn dirty_range_of_equal_and_appended_texts() {
    assert_eq!(dirty_line_range("a\nb", "a\nb"), 2..2);
    assert_eq!(dirty_line_range("a\nb", "a\nb\nc"), 2..3);
    assert_eq!(dirty_line_range("x\r\ny\n", "x\ny"), 2..2);
    assert_eq!(dirty_line_range("a\nb\nc", "a\nc"), 1..1);
}

#[test]
fn parser_outline_lists_headings_in_order() {
    let mut parser = MarkdownParser::new().unwrap();
    let snapshot = parser.parse(DocumentId(7), DocVersion(3), "# A\ntext\n\n## B #\n");
    assert_eq!(snapshot.document, DocumentId(7));
    assert_eq!(snapshot.version, DocVersion(3));
    let titles: Vec<_> = snapshot.outline.iter().map(|h| (h.level, h.title.clone())).collect();
    assert_eq!(titles, vec![(1, "A".to_string()), (2, "B".to_string())]);
    assert!(snapshot.html.contains("<h1>A</h1>"));
    assert!(!snapshot.tree_root_kind.is_empty());
}

#[test]
fn parse_tree_fields_depend_on_the_text_alone() {
    let mut first = MarkdownParser::new().unwrap();
    let mut second = MarkdownParser::new().unwrap();
    let text = "# Title\n\n- item\n\n```\ncode\n```\n";
    let a = first.parse(DocumentId(1), DocVersion(1), "other text");
    let b = first.parse(DocumentId(1), DocVersion(2), text);
    let c = second.parse(DocumentId(2), DocVersion(1), text);
    assert_eq!(a.tree_root_kind, "document");
    assert_eq!(b.tree_root_kind, "document");
    assert_eq!(b.tree_root_kind, c.tree_root_kind);
    assert_eq!(b.parser_had_error, c.parser_had_error);
}
