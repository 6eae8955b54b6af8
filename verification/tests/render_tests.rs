use typora::document::{DocVersion, DocumentId};
use typora::markdown::{BlockId, MarkdownBlock, MarkdownBlockKind, SourceSpan};
use typora::markdown_parser::MarkdownParser;
use typora::render::{
    block_to_render, estimated_line_count, measured_text, plain_preview_text,
    preview_text_from_snapshot, render_blocks, RenderBlockKind,
};

#[test]
fn converts_snapshot_to_render_blocks() {
    let mut parser = MarkdownParser::new().unwrap();
    let snapshot = parser.parse(DocumentId(1), DocVersion(1), "# Title\n\nBody");
    let blocks = render_blocks(&snapshot);

    assert!(matches!(blocks[0].kind, RenderBlockKind::Heading { .. }));
    assert!(matches!(blocks[1].kind, RenderBlockKind::Paragraph { .. }));
}

#[test]
fn plain_preview_strips_markdown_control_syntax() {
    let mut parser = MarkdownParser::new().unwrap();
    let snapshot = parser.parse(
        DocumentId(1),
        DocVersion(1),
        "# Title\n\nA **bold** [link](https://example.com).\n\n- [x] done\n\n```rust\nfn main() {}\n```\n\n> quote\n",
    );
    let blocks = render_blocks(&snapshot);
    let preview = plain_preview_text(&blocks);

    assert!(preview.contains("Title"));
    assert!(preview.contains("A bold link."));
    assert!(preview.contains("done"));
    assert!(preview.contains("Code (rust)"));
    assert!(preview.contains("fn main() {}"));
    assert!(preview.contains("quote"));
    assert!(!preview.contains("```"));
    assert!(!preview.contains("**"));
    assert!(!preview.contains("](https://example.com)"));
}

fn block(kind: MarkdownBlockKind, text: &str) -> MarkdownBlock {
    MarkdownBlock {
        id: BlockId(3),
        kind,
        source_span: SourceSpan { start_line: 1, end_line: 2, start_char: 5, end_char: 9 },
        text: text.to_string(),
    }
}

#[test]
fn block_to_render_keeps_id_span_and_text() {
    let b = block(MarkdownBlockKind::CodeBlock { language: Some("py".into()) }, "```py\nx\n```");
    let r = block_to_render(&b);
    assert_eq!(r.id, BlockId(3));
    assert_eq!(r.source_span, b.source_span);
    assert_eq!(
        r.kind,
        RenderBlockKind::CodeBlock { language: Some("py".into()), code: "```py\nx\n```".into() }
    );
    assert_eq!(r.layout_cache_key, block_to_render(&b).layout_cache_key);
    let h = block_to_render(&block(MarkdownBlockKind::Html, "<p>"));
    assert_eq!(h.kind, RenderBlockKind::HtmlPlaceholder { text: "<p>".into() });
}

#[test]
fn preview_of_each_kind() {
    let blocks: Vec<_> = [
        block(MarkdownBlockKind::List, "  - one\n2.  two\n+ three  "),
        block(MarkdownBlockKind::TaskList, "- [ ] a\n+ [X] b\nplain"),
        block(MarkdownBlockKind::Quote, ">  q1\n q2 "),
        block(MarkdownBlockKind::Rule, "***"),
        block(MarkdownBlockKind::Html, "<b>"),
        block(MarkdownBlockKind::CodeBlock { language: None }, "~~~\nx = 1\n"),
        block(MarkdownBlockKind::Paragraph, "[open `code` _it_"),
    ]
    .iter()
    .map(block_to_render)
    .collect();
    assert_eq!(
        plain_preview_text(&blocks),
        "- one\n- two\n- three\n\na\nb\nplain\n\nq1\nq2\n\n----------------\n\n[HTML]\n<b>\n\nCode\nx = 1\n\nopen `code` _it_"
    );
}

#[test]
fn snapshot_preview_joins_blocks_with_blank_lines() {
    let mut parser = MarkdownParser::new().unwrap();
    let snapshot = parser.parse(DocumentId(2), DocVersion(1), "# T\n\n*x* [y](z) w");
    assert_eq!(preview_text_from_snapshot(&snapshot), "T\n\nx y w");
}

#[test]
fn estimated_line_count_sums_wrapped_rows() {
    assert_eq!(estimated_line_count("abcdefghij\n\nxy", 4), 4);
    assert_eq!(estimated_line_count("a\r\nbbbbbbbb", 4), 3);
    assert_eq!(estimated_line_count("", 8), 1);
    assert_eq!(estimated_line_count("short", 8), 1);
}

#[test]
fn measured_text_picks_title_code_or_text() {
    let heading = RenderBlockKind::Heading { level: 2, title: "Title".to_string() };
    assert_eq!(measured_text(&heading).map(String::as_str), Some("Title"));
    let code = RenderBlockKind::CodeBlock { language: Some("rust".to_string()), code: "fn main() {}".to_string() };
    assert_eq!(measured_text(&code).map(String::as_str), Some("fn main() {}"));
    assert_eq!(measured_text(&RenderBlockKind::Rule), None);
}
