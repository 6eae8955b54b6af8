//! The markdown block scanner: the source is cut into lines, and runs of
//! lines are classified into blocks (headings, fenced code, rules, tables,
//! quotes, task lists, lists, HTML, paragraphs) with their source spans.
use crate::markdown_lines::{
    contains_char, fence_language, fence_spec, heading, heading_spec, is_closing_fence,
    is_closing_fence_spec, is_list, is_list_spec, is_rule, is_rule_spec, is_table_separator,
    is_table_separator_spec, is_task_list, is_task_list_spec, law_list_markers, leading_count,
    starts_block, starts_block_spec, backtick_fence, tilde_fence,
};
use crate::text::{
    char_vec, chars_range, extend_chars, has_prefix, has_prefix_at, is_blank, is_blank_chars,
    find_newline, lemma_find_newline, lemma_trim_line_end, line_end_trimmed_len, piece_len,
    skip_ws, skip_ws_back, std_lines, string_from_chars, text_lines, trim, trim_line_end,
    trim_start, leading_ws, is_ws,
};
use vstd::prelude::*;

verus! {

#[derive(Clone, Copy, Debug, PartialEq, Eq, Hash, Structural)]
pub struct BlockId(pub u64);

#[derive(Clone, Copy, Debug, PartialEq, Eq, Hash, Structural)]
pub struct SourceSpan {
    pub start_line: usize,
    pub end_line: usize,
    pub start_char: usize,
    pub end_char: usize,
}

impl SourceSpan {
    /// The span's lines include `line`.
    pub fn contains_line(self, line: usize) -> (b: bool)
        ensures
            b == (self.start_line <= line && line <= self.end_line),
    {
        self.start_line <= line && line <= self.end_line
    }
}

#[derive(Clone, Debug, PartialEq, Eq)]
pub enum MarkdownBlockKind {
    Heading { level: u8, title: String },
    Paragraph,
    List,
    TaskList,
    CodeBlock { language: Option<String> },
    Quote,
    Rule,
    Table,
    Html,
}

/// The model of a block kind.
pub enum KindView {
    Heading { level: u8, title: Seq<char> },
    Paragraph,
    List,
    TaskList,
    CodeBlock { language: Option<Seq<char>> },
    Quote,
    Rule,
    Table,
    Html,
}

pub open spec fn option_string_view(o: Option<String>) -> Option<Seq<char>> {
    match o {
        Some(s) => Some(s@),
        None => None,
    }
}

impl View for MarkdownBlockKind {
    type V = KindView;

    open spec fn view(&self) -> KindView {
        match self {
            MarkdownBlockKind::Heading { level, title } => KindView::Heading {
                level: *level,
                title: title@,
            },
            MarkdownBlockKind::Paragraph => KindView::Paragraph,
            MarkdownBlockKind::List => KindView::List,
            MarkdownBlockKind::TaskList => KindView::TaskList,
            MarkdownBlockKind::CodeBlock { language } => KindView::CodeBlock {
                language: option_string_view(*language),
            },
            MarkdownBlockKind::Quote => KindView::Quote,
            MarkdownBlockKind::Rule => KindView::Rule,
            MarkdownBlockKind::Table => KindView::Table,
            MarkdownBlockKind::Html => KindView::Html,
        }
    }
}

#[derive(Clone, Debug, PartialEq, Eq)]
pub struct MarkdownBlock {
    pub id: BlockId,
    pub kind: MarkdownBlockKind,
    pub source_span: SourceSpan,
    pub text: String,
}

/// The model of a block.
pub struct BlockView {
    pub id: u64,
    pub kind: KindView,
    pub span: SourceSpan,
    pub text: Seq<char>,
}

impl View for MarkdownBlock {
    type V = BlockView;

    open spec fn view(&self) -> BlockView {
        BlockView { id: self.id.0, kind: self.kind@, span: self.source_span, text: self.text@ }
    }
}

pub open spec fn blocks_view(v: Seq<MarkdownBlock>) -> Seq<BlockView> {
    v.map_values(|b: MarkdownBlock| b@)
}

#[derive(Clone, Debug, PartialEq, Eq)]
pub struct HeadingEntry {
    pub level: u8,
    pub title: String,
    pub source_span: SourceSpan,
}

// ----------------------------------------------------------------------------
// Source lines.

/// A line of the source: its number, the character range it covers (line
/// break included), and its text without trailing CR and LF characters.
pub struct LineView {
    pub number: int,
    pub start_char: int,
    pub end_char: int,
    pub text: Seq<char>,
}

/// The lines of `s`, numbered from `n`, with character offsets from `offset`.
pub open spec fn lines_at(s: Seq<char>, offset: int, n: int) -> Seq<LineView>
    decreases s.len(),
{
    if s.len() == 0 {
        Seq::empty()
    } else {
        let k = piece_len(s);
        proof {
            lemma_find_newline(s);
        }
        seq![
            LineView {
                number: n,
                start_char: offset,
                end_char: offset + k,
                text: trim_line_end(s.take(k)),
            },
        ] + lines_at(s.skip(k), offset + k, n + 1)
    }
}

/// The source lines of a text.
pub open spec fn source_lines_spec(s: Seq<char>) -> Seq<LineView> {
    lines_at(s, 0, 0)
}

/// A source line as the scanner keeps it.
struct SourceLine {
    number: usize,
    start_char: usize,
    end_char: usize,
    text: Vec<char>,
}

impl View for SourceLine {
    type V = LineView;

    closed spec fn view(&self) -> LineView {
        LineView {
            number: self.number as int,
            start_char: self.start_char as int,
            end_char: self.end_char as int,
            text: self.text@,
        }
    }
}

closed spec fn lines_view(v: Seq<SourceLine>) -> Seq<LineView> {
    v.map_values(|l: SourceLine| l@)
}

/// Cuts the text after each `'\n'`; each line keeps its number, its character
/// range and its text without trailing CR and LF.
fn source_lines(v: &Vec<char>) -> (lines: Vec<SourceLine>)
    ensures
        lines_view(lines@) == source_lines_spec(v@),
        lines@.len() <= v@.len(),
{
    let len = v.len();
    let mut lines: Vec<SourceLine> = Vec::new();
    let mut offset: usize = 0;
    let mut number: usize = 0;
    assert(v@.skip(0) == v@);
    while offset < len
        invariant
            offset <= len == v.len(),
            number == lines@.len(),
            number <= offset,
            lines_view(lines@) + lines_at(v@.skip(offset as int), offset as int, number as int)
                == source_lines_spec(v@),
        decreases len - offset,
    {
        let ghost rest = v@.skip(offset as int);
        proof {
            lemma_find_newline(rest);
        }
        let mut e = offset;
        while e < len && v[e] != '\n'
            invariant
                offset <= e <= len == v.len(),
                rest == v@.skip(offset as int),
                e - offset <= find_newline(rest),
                find_newline(rest) <= rest.len(),
                forall|i: int| 0 <= i < find_newline(rest) ==> #[trigger] rest[i] != '\n',
                find_newline(rest) < rest.len() ==> rest[find_newline(rest) as int] == '\n',
            decreases len - e,
        {
            assert(rest[e - offset] == v@[e as int]);
            e += 1;
        }
        if e < len {
            assert(rest[e - offset] == v@[e as int]);
        }
        let end = if e < len {
            e + 1
        } else {
            len
        };
        assert(end - offset == piece_len(rest));
        let piece = chars_range(v, offset, end);
        assert(piece@ == rest.take(piece_len(rest)));
        let keep = line_end_trimmed_len(&piece);
        proof {
            lemma_trim_line_end(piece@);
        }
        let text = chars_range(&piece, 0, keep);
        assert(text@ == trim_line_end(piece@));
        let line = SourceLine { number, start_char: offset, end_char: end, text };
        proof {
            assert(rest.skip(piece_len(rest)) =~= v@.skip(end as int));
            assert(lines_view(lines@.push(line)) =~= lines_view(lines@).push(line@));
            assert(lines_view(lines@).push(line@) + lines_at(
                v@.skip(end as int),
                end as int,
                number + 1,
            ) =~= lines_view(lines@) + lines_at(rest, offset as int, number as int));
        }
        lines.push(line);
        offset = end;
        number += 1;
    }
    assert(lines_at(v@.skip(len as int), len as int, number as int) =~= Seq::<LineView>::empty());
    assert(lines_view(lines@) + Seq::<LineView>::empty() =~= lines_view(lines@));
    lines
}

// ----------------------------------------------------------------------------
// Block classification.

/// The per-line test of a run of quote, task list or list lines.
#[derive(Clone, Copy)]
enum LineTest {
    Quote,
    TaskList,
    List,
}

pub open spec fn quote_marker() -> Seq<char> {
    seq!['>']
}

pub open spec fn html_marker() -> Seq<char> {
    seq!['<']
}

/// Lines `i..` that are not blank and pass the test of a quote (`0`), a task
/// list (`1`) or a list (`2`), with their leading whitespace removed.
pub open spec fn run_test(test: int, t: Seq<char>) -> bool {
    let ts = trim_start(t);
    if test == 0 {
        has_prefix(ts, quote_marker())
    } else if test == 1 {
        is_task_list_spec(ts)
    } else {
        is_list_spec(ts)
    }
}

/// The end of the run of non-blank lines from `i` that pass `test`.
pub open spec fn consume_while_spec(lines: Seq<LineView>, i: int, test: int) -> int
    decreases lines.len() - i,
{
    if 0 <= i < lines.len() && !is_blank(lines[i].text) && run_test(test, lines[i].text) {
        consume_while_spec(lines, i + 1, test)
    } else {
        i
    }
}

/// The end of the run of non-blank lines from `i`.
pub open spec fn consume_until_blank_spec(lines: Seq<LineView>, i: int) -> int
    decreases lines.len() - i,
{
    if 0 <= i < lines.len() && !is_blank(lines[i].text) {
        consume_until_blank_spec(lines, i + 1)
    } else {
        i
    }
}

/// The end of a paragraph from `i`: the first blank line or line that
/// starts another kind of block.
pub open spec fn consume_paragraph_spec(lines: Seq<LineView>, i: int) -> int
    decreases lines.len() - i,
{
    if 0 <= i < lines.len() && trim_start(lines[i].text).len() != 0 && !starts_block_spec(
        trim_start(lines[i].text),
    ) {
        consume_paragraph_spec(lines, i + 1)
    } else {
        i
    }
}

/// The first line from `i` that closes a code fence, or the end.
pub open spec fn closing_fence_from(lines: Seq<LineView>, i: int) -> int
    decreases lines.len() - i,
{
    if 0 <= i < lines.len() && !is_closing_fence_spec(trim_start(lines[i].text)) {
        closing_fence_from(lines, i + 1)
    } else {
        i
    }
}

/// The end of the table rows from `i`: non-blank lines holding `|`.
pub open spec fn table_rows_end(lines: Seq<LineView>, i: int) -> int
    decreases lines.len() - i,
{
    if 0 <= i < lines.len() && lines[i].text.contains('|') && !is_blank(lines[i].text) {
        table_rows_end(lines, i + 1)
    } else {
        i
    }
}

/// Line `i` holds `|` and the next line is a delimiter row.
pub open spec fn is_table_start_spec(lines: Seq<LineView>, i: int) -> bool {
    &&& 0 <= i
    &&& i + 1 < lines.len()
    &&& lines[i].text.contains('|')
    &&& is_table_separator_spec(trim(lines[i + 1].text))
}

/// The kind of the block that starts at the non-blank line `i`, and the
/// index of the line after it.
pub open spec fn classify(lines: Seq<LineView>, i: int) -> (KindView, int) {
    let t = trim_start(lines[i].text);
    match heading_spec(t) {
        Some((level, title)) => (KindView::Heading { level, title }, i + 1),
        None => match fence_spec(t) {
            Some(language) => {
                let j = closing_fence_from(lines, i + 1);
                (KindView::CodeBlock { language }, if j < lines.len() {
                    j + 1
                } else {
                    j
                })
            },
            None => if is_rule_spec(t) {
                (KindView::Rule, i + 1)
            } else if is_table_start_spec(lines, i) {
                (KindView::Table, table_rows_end(lines, i + 2))
            } else if has_prefix(t, quote_marker()) {
                (KindView::Quote, consume_while_spec(lines, i, 0))
            } else if is_task_list_spec(t) {
                (KindView::TaskList, consume_while_spec(lines, i, 1))
            } else if is_list_spec(t) {
                (KindView::List, consume_while_spec(lines, i, 2))
            } else if has_prefix(t, html_marker()) {
                (KindView::Html, consume_until_blank_spec(lines, i))
            } else {
                (KindView::Paragraph, consume_paragraph_spec(lines, i))
            },
        },
    }
}

proof fn lemma_consume_bounds(lines: Seq<LineView>, i: int, test: int)
    requires
        0 <= i <= lines.len(),
    ensures
        i <= consume_while_spec(lines, i, test) <= lines.len(),
        i <= consume_until_blank_spec(lines, i) <= lines.len(),
        i <= consume_paragraph_spec(lines, i) <= lines.len(),
        i <= closing_fence_from(lines, i) <= lines.len(),
        i <= table_rows_end(lines, i) <= lines.len(),
    decreases lines.len() - i,
{
    if i < lines.len() {
        lemma_consume_bounds(lines, i + 1, test);
    }
}

/// A block takes at least one line and ends within the text.
pub proof fn lemma_classify_advances(lines: Seq<LineView>, i: int)
    requires
        0 <= i < lines.len(),
        !is_blank(lines[i].text),
    ensures
        i < classify(lines, i).1 <= lines.len(),
{
    let t = trim_start(lines[i].text);
    lemma_consume_bounds(lines, i + 1, 0);
    lemma_consume_bounds(lines, i + 1, 1);
    lemma_consume_bounds(lines, i + 1, 2);
    lemma_consume_bounds(lines, i, 0);
    if is_table_start_spec(lines, i) {
        lemma_consume_bounds(lines, i + 2, 0);
    }
    crate::text::lemma_leading_ws_bound(lines[i].text);
    if t.len() == 0 {
        assert(is_blank(lines[i].text));
    }
}

/// The lines `a..=b`, joined with `'\n'`.
pub open spec fn join_texts(lines: Seq<LineView>, a: int, b: int) -> Seq<char>
    decreases b - a,
{
    if a >= b {
        lines[a].text
    } else {
        join_texts(lines, a, b - 1) + seq!['\n'] + lines[b].text
    }
}

/// The span of lines `a..=b`.
pub open spec fn span_of(lines: Seq<LineView>, a: int, b: int) -> SourceSpan {
    SourceSpan {
        start_line: lines[a].number as usize,
        end_line: lines[b].number as usize,
        start_char: lines[a].start_char as usize,
        end_char: lines[b].end_char as usize,
    }
}

/// The blocks from line `i` on, numbered after the `count` blocks before them.
pub open spec fn scan_from(lines: Seq<LineView>, i: int, count: int) -> Seq<BlockView>
    decreases lines.len() - i,
{
    if i < 0 || i >= lines.len() {
        Seq::empty()
    } else if is_blank(lines[i].text) {
        scan_from(lines, i + 1, count)
    } else {
        let (kind, next) = classify(lines, i);
        proof {
            lemma_classify_advances(lines, i);
        }
        seq![
            BlockView {
                id: (count + 1) as u64,
                kind,
                span: span_of(lines, i, next - 1),
                text: join_texts(lines, i, next - 1),
            },
        ] + scan_from(lines, next, count + 1)
    }
}

/// The blocks of a markdown text.
pub open spec fn scan_blocks_spec(text: Seq<char>) -> Seq<BlockView> {
    scan_from(source_lines_spec(text), 0, 0)
}

spec fn test_code(test: LineTest) -> int {
    match test {
        LineTest::Quote => 0,
        LineTest::TaskList => 1,
        LineTest::List => 2,
    }
}

/// The line is not blank and passes the test.
fn line_passes(line: &SourceLine, test: LineTest) -> (b: bool)
    ensures
        b == (!is_blank(line@.text) && run_test(test_code(test), line@.text)),
{
    let text = &line.text;
    if is_blank_chars(text) {
        return false;
    }
    let from = skip_ws(text, 0, text.len());
    assert(text@.subrange(0, text@.len() as int) == text@);
    match test {
        LineTest::Quote => {
            let quote: [char; 1] = ['>'];
            assert(quote@ == quote_marker());
            has_prefix_at(text, from, &quote)
        },
        LineTest::TaskList => is_task_list(text, from),
        LineTest::List => is_list(text, from),
    }
}

fn consume_while(lines: &Vec<SourceLine>, index: usize, test: LineTest) -> (r: usize)
    requires
        index <= lines.len(),
    ensures
        r == consume_while_spec(lines_view(lines@), index as int, test_code(test)),
{
    let ghost ls = lines_view(lines@);
    let ghost start = index;
    let mut index = index;
    while index < lines.len() && line_passes(&lines[index], test)
        invariant
            index <= lines.len(),
            ls == lines_view(lines@),
            consume_while_spec(ls, index as int, test_code(test)) == consume_while_spec(
                ls,
                start as int,
                test_code(test),
            ),
        decreases lines.len() - index,
    {
        assert(ls[index as int] == lines@[index as int]@);
        index += 1;
    }
    if index < lines.len() {
        assert(ls[index as int] == lines@[index as int]@);
    }
    index
}

fn consume_until_blank(lines: &Vec<SourceLine>, index: usize) -> (r: usize)
    requires
        index <= lines.len(),
    ensures
        r == consume_until_blank_spec(lines_view(lines@), index as int),
{
    let ghost ls = lines_view(lines@);
    let ghost start = index;
    let mut index = index;
    while index < lines.len() && !is_blank_chars(&lines[index].text)
        invariant
            index <= lines.len(),
            ls == lines_view(lines@),
            consume_until_blank_spec(ls, index as int) == consume_until_blank_spec(
                ls,
                start as int,
            ),
        decreases lines.len() - index,
    {
        assert(ls[index as int] == lines@[index as int]@);
        index += 1;
    }
    if index < lines.len() {
        assert(ls[index as int] == lines@[index as int]@);
    }
    index
}

/// Whether the line ends a paragraph: it is empty once trimmed at the start,
/// or starts another block.
fn ends_paragraph(line: &SourceLine) -> (b: bool)
    ensures
        b == (trim_start(line@.text).len() == 0 || starts_block_spec(trim_start(line@.text))),
{
    let text = &line.text;
    let from = skip_ws(text, 0, text.len());
    assert(text@.subrange(0, text@.len() as int) == text@);
    assert(trim_start(text@) =~= text@.skip(from as int));
    from == text.len() || starts_block(text, from)
}

fn consume_paragraph(lines: &Vec<SourceLine>, index: usize) -> (r: usize)
    requires
        index <= lines.len(),
    ensures
        r == consume_paragraph_spec(lines_view(lines@), index as int),
{
    let ghost ls = lines_view(lines@);
    let mut i = index;
    while i < lines.len()
        invariant
            index <= i <= lines.len(),
            ls == lines_view(lines@),
            consume_paragraph_spec(ls, i as int) == consume_paragraph_spec(ls, index as int),
        decreases lines.len() - i,
    {
        assert(ls[i as int] == lines@[i as int]@);
        if ends_paragraph(&lines[i]) {
            assert(consume_paragraph_spec(ls, i as int) == i as int);
            return i;
        }
        i += 1;
    }
    i
}

/// Whether the line closes a code fence.
fn closes_fence(line: &SourceLine) -> (b: bool)
    ensures
        b == is_closing_fence_spec(trim_start(line@.text)),
{
    let text = &line.text;
    let from = skip_ws(text, 0, text.len());
    assert(text@.subrange(0, text@.len() as int) == text@);
    assert(trim_start(text@) =~= text@.skip(from as int));
    is_closing_fence(text, from)
}

/// Whether the line is a table row: not blank, holding `|`.
fn is_table_row(line: &SourceLine) -> (b: bool)
    ensures
        b == (line@.text.contains('|') && !is_blank(line@.text)),
{
    assert(line.text@.subrange(0, line.text@.len() as int) == line.text@);
    contains_char(&line.text, 0, line.text.len(), '|') && !is_blank_chars(&line.text)
}

fn is_table_start(lines: &Vec<SourceLine>, index: usize) -> (b: bool)
    requires
        index < lines.len(),
    ensures
        b == is_table_start_spec(lines_view(lines@), index as int),
{
    let ghost ls = lines_view(lines@);
    if index + 1 >= lines.len() {
        return false;
    }
    assert(ls[index as int] == lines@[index as int]@);
    assert(ls[index + 1] == lines@[index + 1]@);
    let text = &lines[index].text;
    let next = &lines[index + 1].text;
    assert(text@.subrange(0, text@.len() as int) == text@);
    let a = skip_ws(next, 0, next.len());
    let b = skip_ws_back(next, a, next.len());
    assert(next@.subrange(0, next@.len() as int) == next@);
    assert(trim_start(next@) =~= next@.subrange(a as int, next@.len() as int));
    assert(trim(next@) =~= next@.subrange(a as int, b as int));
    contains_char(text, 0, text.len(), '|') && is_table_separator(next, a, b)
}

/// Index of the first line from `index` that closes a code fence, or the end.
fn skip_to_closing_fence(lines: &Vec<SourceLine>, index: usize) -> (r: usize)
    requires
        index <= lines.len(),
    ensures
        r == closing_fence_from(lines_view(lines@), index as int),
{
    let ghost ls = lines_view(lines@);
    let mut i = index;
    while i < lines.len() && !closes_fence(&lines[i])
        invariant
            index <= i <= lines.len(),
            ls == lines_view(lines@),
            closing_fence_from(ls, i as int) == closing_fence_from(ls, index as int),
        decreases lines.len() - i,
    {
        assert(ls[i as int] == lines@[i as int]@);
        i += 1;
    }
    if i < lines.len() {
        assert(ls[i as int] == lines@[i as int]@);
    }
    i
}

/// Index of the first line from `index` that is not a table row.
fn skip_table_rows(lines: &Vec<SourceLine>, index: usize) -> (r: usize)
    requires
        index <= lines.len(),
    ensures
        r == table_rows_end(lines_view(lines@), index as int),
{
    let ghost ls = lines_view(lines@);
    let mut i = index;
    while i < lines.len() && is_table_row(&lines[i])
        invariant
            index <= i <= lines.len(),
            ls == lines_view(lines@),
            table_rows_end(ls, i as int) == table_rows_end(ls, index as int),
        decreases lines.len() - i,
    {
        assert(ls[i as int] == lines@[i as int]@);
        i += 1;
    }
    if i < lines.len() {
        assert(ls[i as int] == lines@[i as int]@);
    }
    i
}

/// The kind of the block that starts at line `i`, and the line after it.
fn classify_block(lines: &Vec<SourceLine>, i: usize) -> (r: (MarkdownBlockKind, usize))
    requires
        i < lines.len(),
        !is_blank(lines_view(lines@)[i as int].text),
    ensures
        r.0@ == classify(lines_view(lines@), i as int).0,
        r.1 as int == classify(lines_view(lines@), i as int).1,
{
    let ghost ls = lines_view(lines@);
    assert(ls[i as int] == lines@[i as int]@);
    let text = &lines[i].text;
    let from = skip_ws(text, 0, text.len());
    assert(text@.subrange(0, text@.len() as int) == text@);
    assert(trim_start(text@) =~= text@.skip(from as int));
    proof {
        lemma_classify_advances(ls, i as int);
        lemma_consume_bounds(ls, i + 1, 0);
    }
    if let Some((level, title)) = heading(text, from) {
        return (MarkdownBlockKind::Heading { level, title }, i + 1);
    }
    if let Some(language) = fence_language(text, from) {
        let mut j = skip_to_closing_fence(lines, i + 1);
        if j < lines.len() {
            j += 1;
        }
        return (MarkdownBlockKind::CodeBlock { language }, j);
    }
    if is_rule(text, from) {
        return (MarkdownBlockKind::Rule, i + 1);
    }
    if is_table_start(lines, i) {
        let j = skip_table_rows(lines, i + 2);
        return (MarkdownBlockKind::Table, j);
    }
    let quote: [char; 1] = ['>'];
    assert(quote@ == quote_marker());
    if has_prefix_at(text, from, &quote) {
        return (MarkdownBlockKind::Quote, consume_while(lines, i, LineTest::Quote));
    }
    if is_task_list(text, from) {
        return (MarkdownBlockKind::TaskList, consume_while(lines, i, LineTest::TaskList));
    }
    if is_list(text, from) {
        return (MarkdownBlockKind::List, consume_while(lines, i, LineTest::List));
    }
    let angle: [char; 1] = ['<'];
    assert(angle@ == html_marker());
    if has_prefix_at(text, from, &angle) {
        return (MarkdownBlockKind::Html, consume_until_blank(lines, i));
    }
    (MarkdownBlockKind::Paragraph, consume_paragraph(lines, i))
}

/// The span of lines `start..=end`.
fn span_for_lines(lines: &Vec<SourceLine>, start: usize, end: usize) -> (s: SourceSpan)
    requires
        start <= end < lines.len(),
    ensures
        s == span_of(lines_view(lines@), start as int, end as int),
{
    let first = &lines[start];
    let last = &lines[end];
    assert(lines_view(lines@)[start as int] == lines@[start as int]@);
    assert(lines_view(lines@)[end as int] == lines@[end as int]@);
    SourceSpan {
        start_line: first.number,
        end_line: last.number,
        start_char: first.start_char,
        end_char: last.end_char,
    }
}

/// The texts of lines `start..=end`, joined with `'\n'`.
fn join_line_texts(lines: &Vec<SourceLine>, start: usize, end: usize) -> (s: String)
    requires
        start <= end < lines.len(),
    ensures
        s@ == join_texts(lines_view(lines@), start as int, end as int),
{
    let ghost ls = lines_view(lines@);
    let mut v: Vec<char> = Vec::new();
    assert(ls[start as int] == lines@[start as int]@);
    extend_chars(&mut v, lines[start].text.as_slice());
    let mut k = start;
    while k < end
        invariant
            start <= k <= end < lines.len(),
            ls == lines_view(lines@),
            v@ == join_texts(ls, start as int, k as int),
        decreases end - k,
    {
        k += 1;
        assert(ls[k as int] == lines@[k as int]@);
        v.push('\n');
        extend_chars(&mut v, lines[k].text.as_slice());
    }
    string_from_chars(v.as_slice())
}

/// The blocks of a markdown text: runs of lines classified by their first
/// line, blank lines between them skipped, numbered from 1 in order.
pub fn scan_blocks(text: &str) -> (blocks: Vec<MarkdownBlock>)
    ensures
        blocks_view(blocks@) == scan_blocks_spec(text@),
{
    let v = char_vec(text);
    let lines = source_lines(&v);
    let ghost ls = lines_view(lines@);
    let mut blocks: Vec<MarkdownBlock> = Vec::new();
    let mut i: usize = 0;
    while i < lines.len()
        invariant
            i <= lines.len(),
            ls == lines_view(lines@),
            ls == source_lines_spec(text@),
            blocks@.len() <= i,
            blocks_view(blocks@) + scan_from(ls, i as int, blocks@.len() as int)
                == scan_blocks_spec(text@),
        decreases lines.len() - i,
    {
        assert(ls[i as int] == lines@[i as int]@);
        if is_blank_chars(&lines[i].text) {
            i += 1;
            continue;
        }
        let start = i;
        let (kind, next) = classify_block(&lines, i);
        proof {
            lemma_classify_advances(ls, start as int);
        }
        i = next;
        let end = i - 1;
        let block_text = join_line_texts(&lines, start, end);
        let block = MarkdownBlock {
            id: BlockId(blocks.len() as u64 + 1),
            kind,
            source_span: span_for_lines(&lines, start, end),
            text: block_text,
        };
        proof {
            assert(blocks_view(blocks@.push(block)) =~= blocks_view(blocks@).push(block@));
            assert(blocks_view(blocks@).push(block@) + scan_from(ls, i as int, blocks@.len() + 1int)
                =~= blocks_view(blocks@) + scan_from(ls, start as int, blocks@.len() as int));
        }
        blocks.push(block);
    }
    assert(blocks_view(blocks@) + scan_from(ls, i as int, blocks@.len() as int) =~= blocks_view(
        blocks@,
    ));
    blocks
}

// ----------------------------------------------------------------------------
// Looking up the block of a source line.

/// The first index whose span holds `line`, searching from `i`.
pub open spec fn first_holding(spans: Seq<SourceSpan>, line: int, i: int) -> Option<int>
    decreases spans.len() - i,
{
    if i < 0 || i >= spans.len() {
        None
    } else if spans[i].start_line <= line <= spans[i].end_line {
        Some(i)
    } else {
        first_holding(spans, line, i + 1)
    }
}

/// The last index below `n` whose span starts at or before `line`.
pub open spec fn last_starting_by(spans: Seq<SourceSpan>, line: int, n: int) -> Option<int>
    decreases n,
{
    if n <= 0 {
        None
    } else if spans[n - 1].start_line <= line {
        Some(n - 1)
    } else {
        last_starting_by(spans, line, n - 1)
    }
}

/// The entry for a source line: the first span that holds it, or else the
/// last span that starts at or before it.
pub open spec fn line_lookup_spec(spans: Seq<SourceSpan>, line: int) -> Option<int> {
    match first_holding(spans, line, 0) {
        Some(i) => Some(i),
        None => last_starting_by(spans, line, spans.len() as int),
    }
}

pub proof fn lemma_line_lookup_bounds(spans: Seq<SourceSpan>, line: int)
    ensures
        line_lookup_spec(spans, line) matches Some(i) ==> 0 <= i < spans.len(),
{
    lemma_first_holding(spans, line, 0);
    lemma_last_starting_by(spans, line, spans.len() as int);
}

proof fn lemma_first_holding(spans: Seq<SourceSpan>, line: int, i: int)
    requires
        0 <= i,
    ensures
        first_holding(spans, line, i) matches Some(k) ==> i <= k < spans.len(),
    decreases spans.len() - i,
{
    if i < spans.len() && !(spans[i].start_line <= line <= spans[i].end_line) {
        lemma_first_holding(spans, line, i + 1);
    }
}

proof fn lemma_last_starting_by(spans: Seq<SourceSpan>, line: int, n: int)
    requires
        n <= spans.len(),
    ensures
        last_starting_by(spans, line, n) matches Some(k) ==> 0 <= k < n,
    decreases n,
{
    if n > 0 && !(spans[n - 1].start_line <= line) {
        lemma_last_starting_by(spans, line, n - 1);
    }
}

/// Index of the entry for `line` among `spans`: the first span that holds
/// the line, or else the last one that starts at or before it.
pub fn line_lookup(spans: &[SourceSpan], line: usize) -> (r: Option<usize>)
    ensures
        r matches Some(i) ==> line_lookup_spec(spans@, line as int) == Some(i as int),
        r is None ==> line_lookup_spec(spans@, line as int) is None,
{
    let mut i: usize = 0;
    while i < spans.len()
        invariant
            i <= spans.len(),
            first_holding(spans@, line as int, i as int) == first_holding(spans@, line as int, 0),
        decreases spans.len() - i,
    {
        if spans[i].contains_line(line) {
            return Some(i);
        }
        i += 1;
    }
    let mut n: usize = spans.len();
    while n > 0
        invariant
            n <= spans.len(),
            first_holding(spans@, line as int, 0) is None,
            last_starting_by(spans@, line as int, n as int) == last_starting_by(
                spans@,
                line as int,
                spans.len() as int,
            ),
        decreases n,
    {
        if spans[n - 1].start_line <= line {
            return Some(n - 1);
        }
        n -= 1;
    }
    None
}

pub open spec fn spans_of(blocks: Seq<MarkdownBlock>) -> Seq<SourceSpan> {
    blocks.map_values(|b: MarkdownBlock| b.source_span)
}

/// The block for a source line: the first block whose span holds the line,
/// or else the last block that starts at or before it.
pub fn block_for_line(blocks: &[MarkdownBlock], line: usize) -> (r: Option<&MarkdownBlock>)
    ensures
        line_lookup_spec(spans_of(blocks@), line as int) matches Some(i) ==> r == Some(
            &blocks@[i],
        ),
        line_lookup_spec(spans_of(blocks@), line as int) is None ==> r is None,
{
    let mut spans: Vec<SourceSpan> = Vec::new();
    let mut k: usize = 0;
    while k < blocks.len()
        invariant
            k <= blocks.len(),
            spans@ == spans_of(blocks@).take(k as int),
        decreases blocks.len() - k,
    {
        spans.push(blocks[k].source_span);
        assert(spans_of(blocks@).take(k + 1) =~= spans_of(blocks@).take(k as int).push(
            blocks@[k as int].source_span,
        ));
        k += 1;
    }
    assert(spans@ =~= spans_of(blocks@));
    proof {
        lemma_line_lookup_bounds(spans@, line as int);
    }
    match line_lookup(spans.as_slice(), line) {
        Some(i) => Some(&blocks[i]),
        None => None,
    }
}

// ----------------------------------------------------------------------------
// The range of lines that an edit changed.

/// The number of equal leading lines.
pub open spec fn common_prefix(a: Seq<Seq<char>>, b: Seq<Seq<char>>) -> nat
    decreases a.len(),
{
    if a.len() > 0 && b.len() > 0 && a[0] == b[0] {
        1 + common_prefix(a.drop_first(), b.drop_first())
    } else {
        0
    }
}

/// The number of equal trailing lines.
pub open spec fn common_suffix(a: Seq<Seq<char>>, b: Seq<Seq<char>>) -> nat
    decreases a.len(),
{
    if a.len() > 0 && b.len() > 0 && a.last() == b.last() {
        1 + common_suffix(a.drop_last(), b.drop_last())
    } else {
        0
    }
}

/// What `dirty_line_range` returns: from the first line that differs to the
/// end of the new lines minus those that end both texts alike.
pub open spec fn dirty_range_spec(old_text: Seq<char>, new_text: Seq<char>) -> (int, int) {
    let a = std_lines(old_text);
    let b = std_lines(new_text);
    let p = common_prefix(a, b) as int;
    let s = common_suffix(a.skip(p), b.skip(p)) as int;
    (p, if b.len() >= s {
        b.len() - s
    } else {
        0
    })
}

pub proof fn lemma_common_prefix(a: Seq<Seq<char>>, b: Seq<Seq<char>>)
    ensures
        common_prefix(a, b) <= a.len(),
        common_prefix(a, b) <= b.len(),
        forall|i: int| 0 <= i < common_prefix(a, b) ==> #[trigger] a[i] == b[i],
        common_prefix(a, b) < a.len() && common_prefix(a, b) < b.len() ==> a[common_prefix(
            a,
            b,
        ) as int] != b[common_prefix(a, b) as int],
    decreases a.len(),
{
    if a.len() > 0 && b.len() > 0 && a[0] == b[0] {
        lemma_common_prefix(a.drop_first(), b.drop_first());
        assert forall|i: int| 0 <= i < common_prefix(a, b) implies #[trigger] a[i] == b[i] by {
            if i > 0 {
                assert(a[i] == a.drop_first()[i - 1]);
                assert(b[i] == b.drop_first()[i - 1]);
            }
        }
        let p = common_prefix(a, b) as int;
        if p < a.len() && p < b.len() {
            assert(a[p] == a.drop_first()[p - 1]);
            assert(b[p] == b.drop_first()[p - 1]);
        }
    }
}

pub proof fn lemma_common_suffix(a: Seq<Seq<char>>, b: Seq<Seq<char>>)
    ensures
        common_suffix(a, b) <= a.len(),
        common_suffix(a, b) <= b.len(),
        forall|i: int|
            0 <= i < common_suffix(a, b) ==> #[trigger] a[a.len() - 1 - i] == b[b.len() - 1 - i],
        common_suffix(a, b) < a.len() && common_suffix(a, b) < b.len() ==> a[a.len() - 1
            - common_suffix(a, b)] != b[b.len() - 1 - common_suffix(a, b)],
    decreases a.len(),
{
    if a.len() > 0 && b.len() > 0 && a.last() == b.last() {
        lemma_common_suffix(a.drop_last(), b.drop_last());
        assert forall|i: int| 0 <= i < common_suffix(a, b) implies #[trigger] a[a.len() - 1 - i]
            == b[b.len() - 1 - i] by {
            if i > 0 {
                assert(a[a.len() - 1 - i] == a.drop_last()[a.drop_last().len() - 1 - (i - 1)]);
                assert(b[b.len() - 1 - i] == b.drop_last()[b.drop_last().len() - 1 - (i - 1)]);
            }
        }
        let s = common_suffix(a, b) as int;
        if s < a.len() && s < b.len() {
            assert(a[a.len() - 1 - s] == a.drop_last()[a.drop_last().len() - 1 - (s - 1)]);
            assert(b[b.len() - 1 - s] == b.drop_last()[b.drop_last().len() - 1 - (s - 1)]);
        }
    }
}

/// Whether two character vectors are equal.
fn chars_equal(a: &Vec<char>, b: &Vec<char>) -> (r: bool)
    ensures
        r == (a@ == b@),
{
    if a.len() != b.len() {
        return false;
    }
    let mut i: usize = 0;
    while i < a.len()
        invariant
            i <= a.len() == b.len(),
            forall|k: int| 0 <= k < i ==> a@[k] == b@[k],
        decreases a.len() - i,
    {
        if a[i] != b[i] {
            return false;
        }
        i += 1;
    }
    assert(a@ =~= b@);
    true
}

/// The range of new lines that differ from the old text: lines before it
/// and after it are the same in both texts (`str::lines`).
pub fn dirty_line_range(old_text: &str, new_text: &str) -> (r: std::ops::Range<usize>)
    ensures
        r.start == dirty_range_spec(old_text@, new_text@).0,
        r.end == dirty_range_spec(old_text@, new_text@).1,
{
    let old_chars = char_vec(old_text);
    let new_chars = char_vec(new_text);
    let old_lines = text_lines(&old_chars);
    let new_lines = text_lines(&new_chars);
    let ghost a = std_lines(old_text@);
    let ghost b = std_lines(new_text@);
    assert(forall|i: int| 0 <= i < old_lines@.len() ==> #[trigger] old_lines@[i]@ == a[i]);
    assert(forall|i: int| 0 <= i < new_lines@.len() ==> #[trigger] new_lines@[i]@ == b[i]);
    proof {
        lemma_common_prefix(a, b);
    }
    let mut prefix: usize = 0;
    while prefix < old_lines.len() && prefix < new_lines.len() && chars_equal(
        &old_lines[prefix],
        &new_lines[prefix],
    )
        invariant
            prefix <= old_lines.len(),
            prefix <= new_lines.len(),
            a.len() == old_lines@.len(),
            b.len() == new_lines@.len(),
            forall|i: int| 0 <= i < old_lines@.len() ==> #[trigger] old_lines@[i]@ == a[i],
            forall|i: int| 0 <= i < new_lines@.len() ==> #[trigger] new_lines@[i]@ == b[i],
            prefix <= common_prefix(a, b),
            common_prefix(a, b) <= a.len(),
            common_prefix(a, b) <= b.len(),
            forall|i: int| 0 <= i < common_prefix(a, b) ==> #[trigger] a[i] == b[i],
            common_prefix(a, b) < a.len() && common_prefix(a, b) < b.len() ==> a[common_prefix(
                a,
                b,
            ) as int] != b[common_prefix(a, b) as int],
        decreases old_lines.len() - prefix,
    {
        prefix += 1;
    }
    let ghost ra = a.skip(prefix as int);
    let ghost rb = b.skip(prefix as int);
    proof {
        lemma_common_suffix(ra, rb);
    }
    let old_len = old_lines.len();
    let new_len = new_lines.len();
    let mut suffix: usize = 0;
    while suffix < old_len - prefix && suffix < new_len - prefix && chars_equal(
        &old_lines[old_len - 1 - suffix],
        &new_lines[new_len - 1 - suffix],
    )
        invariant
            prefix <= old_len == old_lines.len() == a.len(),
            prefix <= new_len == new_lines.len() == b.len(),
            ra == a.skip(prefix as int),
            rb == b.skip(prefix as int),
            forall|i: int| 0 <= i < old_lines@.len() ==> #[trigger] old_lines@[i]@ == a[i],
            forall|i: int| 0 <= i < new_lines@.len() ==> #[trigger] new_lines@[i]@ == b[i],
            suffix <= common_suffix(ra, rb),
            common_suffix(ra, rb) <= ra.len(),
            common_suffix(ra, rb) <= rb.len(),
            forall|i: int|
                0 <= i < common_suffix(ra, rb) ==> #[trigger] ra[ra.len() - 1 - i] == rb[rb.len()
                    - 1 - i],
            common_suffix(ra, rb) < ra.len() && common_suffix(ra, rb) < rb.len() ==> ra[ra.len()
                - 1 - common_suffix(ra, rb)] != rb[rb.len() - 1 - common_suffix(ra, rb)],
        decreases old_len - suffix,
    {
        assert(ra[ra.len() - 1 - suffix] == a[old_len - 1 - suffix]);
        assert(rb[rb.len() - 1 - suffix] == b[new_len - 1 - suffix]);
        suffix += 1;
    }
    if suffix < old_len - prefix && suffix < new_len - prefix {
        assert(ra[ra.len() - 1 - suffix] == a[old_len - 1 - suffix]);
        assert(rb[rb.len() - 1 - suffix] == b[new_len - 1 - suffix]);
    }
    prefix..new_len.saturating_sub(suffix)
}

/// The lines before the dirty range are the same in both texts, and so are
/// the lines after it in the new text and as many last lines of the old
/// text; the range lies within the new lines. Equal texts give an empty range.
pub proof fn law_dirty_range(old_text: Seq<char>, new_text: Seq<char>)
    ensures
        ({
            let a = std_lines(old_text);
            let b = std_lines(new_text);
            let (start, end) = dirty_range_spec(old_text, new_text);
            &&& 0 <= start <= end <= b.len()
            &&& forall|i: int| 0 <= i < start ==> #[trigger] a[i] == b[i]
            &&& forall|i: int| end <= i < b.len() ==> #[trigger] b[i] == a[a.len() - (b.len() - i)]
            &&& end - start <= b.len()
            &&& (old_text == new_text ==> start == end)
        }),
{
    let a = std_lines(old_text);
    let b = std_lines(new_text);
    lemma_common_prefix(a, b);
    let p = common_prefix(a, b) as int;
    let ra = a.skip(p);
    let rb = b.skip(p);
    lemma_common_suffix(ra, rb);
    let sfx = common_suffix(ra, rb) as int;
    assert forall|i: int| b.len() - sfx <= i < b.len() implies #[trigger] b[i] == a[a.len() - (
    b.len() - i)] by {
        let j = b.len() - 1 - i;
        assert(ra[ra.len() - 1 - j] == rb[rb.len() - 1 - j]);
    }
    if old_text == new_text {
        if p < a.len() {
            assert(a[p] == b[p]);
        }
    }
}

proof fn lemma_lines_at(s: Seq<char>, offset: int, n: int)
    ensures
        lines_at(s, offset, n).len() <= s.len(),
        forall|i: int|
            0 <= i < lines_at(s, offset, n).len() ==> #[trigger] lines_at(s, offset, n)[i].number
                == n + i,
    decreases s.len(),
{
    if s.len() > 0 {
        lemma_find_newline(s);
        let k = piece_len(s);
        lemma_lines_at(s.skip(k), offset + k, n + 1);
        let r = lines_at(s, offset, n);
        let tail = lines_at(s.skip(k), offset + k, n + 1);
        assert forall|i: int| 0 <= i < r.len() implies #[trigger] r[i].number == n + i by {
            if i > 0 {
                assert(r[i] == tail[i - 1]);
            }
        }
    }
}

proof fn lemma_scan_from(ls: Seq<LineView>, i: int, c: int)
    requires
        0 <= i,
        0 <= c,
        ls.len() <= usize::MAX,
        forall|j: int| 0 <= j < ls.len() ==> #[trigger] ls[j].number == j,
    ensures
        ({
            let r = scan_from(ls, i, c);
            &&& r.len() <= if i <= ls.len() {
                ls.len() - i
            } else {
                0
            }
            &&& forall|k: int| 0 <= k < r.len() ==> #[trigger] r[k].id == (c + 1 + k) as u64
            &&& forall|k: int|
                0 <= k < r.len() ==> i <= (#[trigger] r[k]).span.start_line <= r[k].span.end_line
                    < ls.len()
            &&& forall|k: int|
                0 <= k < r.len() - 1 ==> (#[trigger] r[k]).span.end_line < r[k + 1].span.start_line
        }),
    decreases ls.len() - i,
{
    if i < ls.len() {
        if is_blank(ls[i].text) {
            lemma_scan_from(ls, i + 1, c);
        } else {
            lemma_classify_advances(ls, i);
            let next = classify(ls, i).1;
            lemma_scan_from(ls, next, c + 1);
            let r = scan_from(ls, i, c);
            let tail = scan_from(ls, next, c + 1);
            assert(r[0].span.start_line == i);
            assert(r[0].span.end_line == next - 1);
            assert forall|k: int| 0 < k < r.len() implies #[trigger] r[k] == tail[k - 1] by {}
            assert forall|k: int| 0 <= k < r.len() implies #[trigger] r[k].id == (c + 1 + k) as u64 by {
                if k > 0 {
                    assert(r[k] == tail[k - 1]);
                }
            }
            assert forall|k: int| 0 <= k < r.len() implies i <= (#[trigger] r[k]).span.start_line
                <= r[k].span.end_line < ls.len() by {
                if k > 0 {
                    assert(r[k] == tail[k - 1]);
                }
            }
            assert forall|k: int| 0 <= k < r.len() - 1 implies (#[trigger] r[k]).span.end_line
                < r[k + 1].span.start_line by {
                assert(r[k + 1] == tail[k]);
                if k > 0 {
                    assert(r[k] == tail[k - 1]);
                }
            }
        }
    }
}

/// The blocks of a text are numbered 1, 2, 3, … in order; each spans lines
/// `start_line..=end_line` of the text, and each ends before the next starts.
pub proof fn law_scan_blocks_ordered(text: Seq<char>)
    requires
        text.len() <= usize::MAX,
    ensures
        ({
            let bs = scan_blocks_spec(text);
            let n = source_lines_spec(text).len();
            &&& forall|k: int| 0 <= k < bs.len() ==> #[trigger] bs[k].id == k + 1
            &&& forall|k: int|
                0 <= k < bs.len() ==> (#[trigger] bs[k]).span.start_line <= bs[k].span.end_line < n
            &&& forall|k: int|
                0 <= k < bs.len() - 1 ==> (#[trigger] bs[k]).span.end_line < bs[k + 1].span.start_line
        }),
{
    lemma_lines_at(text, 0, 0);
    let ls = source_lines_spec(text);
    lemma_scan_from(ls, 0, 0);
    let bs = scan_blocks_spec(text);
    assert forall|k: int| 0 <= k < bs.len() implies #[trigger] bs[k].id == k + 1 by {
        assert(bs[k].id == (1 + k) as u64);
    }
}

pub open spec fn span_holds(s: SourceSpan, line: int) -> bool {
    s.start_line <= line <= s.end_line
}

proof fn lemma_first_holding_is_first(spans: Seq<SourceSpan>, line: int, i: int)
    requires
        0 <= i <= spans.len(),
    ensures
        first_holding(spans, line, i) matches Some(k) ==> i <= k < spans.len() && span_holds(
            spans[k],
            line,
        ) && forall|j: int| i <= j < k ==> !span_holds(#[trigger] spans[j], line),
        first_holding(spans, line, i) is None ==> forall|j: int|
            i <= j < spans.len() ==> !span_holds(#[trigger] spans[j], line),
    decreases spans.len() - i,
{
    if i < spans.len() && !span_holds(spans[i], line) {
        lemma_first_holding_is_first(spans, line, i + 1);
    }
}

proof fn lemma_last_starting_is_last(spans: Seq<SourceSpan>, line: int, n: int)
    requires
        0 <= n <= spans.len(),
    ensures
        last_starting_by(spans, line, n) matches Some(k) ==> 0 <= k < n && spans[k].start_line
            <= line && forall|j: int| k < j < n ==> (#[trigger] spans[j]).start_line > line,
        last_starting_by(spans, line, n) is None ==> forall|j: int|
            0 <= j < n ==> (#[trigger] spans[j]).start_line > line,
    decreases n,
{
    if n > 0 && !(spans[n - 1].start_line <= line) {
        lemma_last_starting_is_last(spans, line, n - 1);
    }
}

/// The entry for a line is the first span that holds the line; when none
/// does, it is the last span that starts at or before the line; when none
/// does either, there is none.
pub proof fn law_line_lookup(spans: Seq<SourceSpan>, line: int)
    ensures
        (exists|i: int| 0 <= i < spans.len() && span_holds(#[trigger] spans[i], line)) ==> (
        line_lookup_spec(spans, line) matches Some(k) && 0 <= k < spans.len() && span_holds(
            spans[k],
            line,
        ) && forall|j: int| 0 <= j < k ==> !span_holds(#[trigger] spans[j], line)),
        (forall|i: int| 0 <= i < spans.len() ==> !span_holds(#[trigger] spans[i], line)) ==> (
        match line_lookup_spec(spans, line) {
            Some(k) => 0 <= k < spans.len() && spans[k].start_line <= line && forall|j: int|
                k < j < spans.len() ==> (#[trigger] spans[j]).start_line > line,
            None => forall|j: int| 0 <= j < spans.len() ==> (#[trigger] spans[j]).start_line > line,
        }),
{
    lemma_first_holding_is_first(spans, line, 0);
    lemma_last_starting_is_last(spans, line, spans.len() as int);
}

/// A list line of `+` items from `i` runs at least to `e`.
proof fn lemma_plus_run(lines: Seq<LineView>, k: int, e: int)
    requires
        0 <= k <= e <= lines.len(),
        forall|j: int| k <= j < e ==> has_prefix(#[trigger] trim_start(lines[j].text), seq!['+', ' ']),
    ensures
        consume_while_spec(lines, k, 2) >= e,
    decreases e - k,
{
    if k < e {
        assert(has_prefix(trim_start(lines[k].text), seq!['+', ' ']));
        lemma_plus_line(lines[k].text);
        assert(run_test(2, lines[k].text));
        lemma_plus_run(lines, k + 1, e);
    } else {
        lemma_consume_bounds(lines, k, 2);
    }
}

/// A line whose text after its indentation starts with `+ `: it is not
/// blank, and it is a list item of no other kind.
proof fn lemma_plus_line(line: Seq<char>)
    requires
        has_prefix(trim_start(line), seq!['+', ' ']),
    ensures
        !is_blank(line),
        heading_spec(trim_start(line)) is None,
        fence_spec(trim_start(line)) is None,
        !is_rule_spec(trim_start(line)),
        !has_prefix(trim_start(line), quote_marker()),
        !is_task_list_spec(trim_start(line)),
        is_list_spec(trim_start(line)),
        !has_prefix(trim_start(line), html_marker()),
{
    let t = trim_start(line);
    crate::text::lemma_leading_ws_bound(line);
    assert(t.take(2)[0] == t[0]);
    assert(t[0] == '+');
    assert(t.take(2)[1] == t[1]);
    assert(line[leading_ws(line) as int] == '+');
    assert(!is_ws('+'));
    assert(leading_count(t, '#') == 0);
    assert(leading_ws(t) == 0);
    if has_prefix(t, backtick_fence()) {
        assert(t.take(3)[0] == t[0]);
    }
    if has_prefix(t, tilde_fence()) {
        assert(t.take(3)[0] == t[0]);
    }
    if has_prefix(t, quote_marker()) {
        assert(t.take(1)[0] == t[0]);
    }
    if has_prefix(t, html_marker()) {
        assert(t.take(1)[0] == t[0]);
    }
    if is_task_list_spec(t) {
        assert(t.take(6)[0] == t[0]);
    }
    law_list_markers(t);
}

/// A line that starts (after its indentation) with `+ ` and holds no `|`
/// starts a list block, which takes in every following line that also
/// starts with `+ `: the block from line `i` is a list running at least to
/// line `e`.
pub proof fn law_plus_items_form_a_list(lines: Seq<LineView>, i: int, e: int, count: int)
    requires
        0 <= i < e <= lines.len(),
        forall|k: int| i <= k < e ==> has_prefix(#[trigger] trim_start(lines[k].text), seq!['+', ' ']),
        !lines[i].text.contains('|'),
    ensures
        scan_from(lines, i, count).len() > 0,
        ({
            let n = classify(lines, i).1;
            &&& e <= n
            &&& scan_from(lines, i, count)[0] == (BlockView {
                id: (count + 1) as u64,
                kind: KindView::List,
                span: span_of(lines, i, n - 1),
                text: join_texts(lines, i, n - 1),
            })
        }),
{
    assert(has_prefix(trim_start(lines[i].text), seq!['+', ' ']));
    lemma_plus_line(lines[i].text);
    lemma_plus_run(lines, i, e);
    assert(!is_table_start_spec(lines, i));
    lemma_classify_advances(lines, i);
}

} // verus!
