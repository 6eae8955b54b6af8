//! The preview's block model: markdown blocks become render blocks, and the
//! plain-text preview drops markdown's control syntax (emphasis marks, link
//! targets, list and quote markers, code fences).
use crate::markdown::{BlockId, MarkdownBlock, MarkdownBlockKind, SourceSpan};
use crate::markdown_parser::MarkdownSnapshot;
use crate::markdown_lines::{is_closing_fence_spec, is_ordered_item, task_prefix};
use crate::text::{
    char_vec, extend_chars, find_char, find_from, has_prefix, has_prefix_at, join_with,
    lemma_find_char, lemma_find_newline, piece_len, skip_ws, std_line, skip_ws_back, std_lines, string_from_chars, text_lines, trim,
    trim_start,
};
use std::collections::hash_map::DefaultHasher;
use std::hash::{Hash, Hasher};
use vstd::prelude::*;

verus! {

#[derive(Clone, Copy, Debug, PartialEq, Eq, Hash, Structural)]
pub struct LayoutCacheKey(pub u64);

#[derive(Clone, Debug, PartialEq, Eq)]
pub enum RenderBlockKind {
    Heading { level: u8, title: String },
    Paragraph { text: String },
    List { text: String },
    TaskList { text: String },
    CodeBlock { language: Option<String>, code: String },
    Quote { text: String },
    Rule,
    Table { text: String },
    HtmlPlaceholder { text: String },
}

/// The model of a render block kind.
pub enum RenderKindView {
    Heading { level: u8, title: Seq<char> },
    Paragraph { text: Seq<char> },
    List { text: Seq<char> },
    TaskList { text: Seq<char> },
    CodeBlock { language: Option<Seq<char>>, code: Seq<char> },
    Quote { text: Seq<char> },
    Rule,
    Table { text: Seq<char> },
    HtmlPlaceholder { text: Seq<char> },
}

impl View for RenderBlockKind {
    type V = RenderKindView;

    open spec fn view(&self) -> RenderKindView {
        match self {
            RenderBlockKind::Heading { level, title } => RenderKindView::Heading {
                level: *level,
                title: title@,
            },
            RenderBlockKind::Paragraph { text } => RenderKindView::Paragraph { text: text@ },
            RenderBlockKind::List { text } => RenderKindView::List { text: text@ },
            RenderBlockKind::TaskList { text } => RenderKindView::TaskList { text: text@ },
            RenderBlockKind::CodeBlock { language, code } => RenderKindView::CodeBlock {
                language: crate::markdown::option_string_view(*language),
                code: code@,
            },
            RenderBlockKind::Quote { text } => RenderKindView::Quote { text: text@ },
            RenderBlockKind::Rule => RenderKindView::Rule,
            RenderBlockKind::Table { text } => RenderKindView::Table { text: text@ },
            RenderBlockKind::HtmlPlaceholder { text } => RenderKindView::HtmlPlaceholder {
                text: text@,
            },
        }
    }
}

#[derive(Clone, Debug, PartialEq, Eq)]
pub struct RenderBlock {
    pub id: BlockId,
    pub source_span: SourceSpan,
    pub kind: RenderBlockKind,
    pub layout_cache_key: LayoutCacheKey,
}

/// The render kind of a markdown block: a heading keeps its level and title,
/// a code block its language with the block's text as code, every other kind
/// the block's text (a rule has none).
pub open spec fn render_kind_spec(block: MarkdownBlock) -> RenderKindView {
    let text = block.text@;
    match block.kind {
        MarkdownBlockKind::Heading { level, title } => RenderKindView::Heading {
            level,
            title: title@,
        },
        MarkdownBlockKind::Paragraph => RenderKindView::Paragraph { text },
        MarkdownBlockKind::List => RenderKindView::List { text },
        MarkdownBlockKind::TaskList => RenderKindView::TaskList { text },
        MarkdownBlockKind::CodeBlock { language } => RenderKindView::CodeBlock {
            language: crate::markdown::option_string_view(language),
            code: text,
        },
        MarkdownBlockKind::Quote => RenderKindView::Quote { text },
        MarkdownBlockKind::Rule => RenderKindView::Rule,
        MarkdownBlockKind::Table => RenderKindView::Table { text },
        MarkdownBlockKind::Html => RenderKindView::HtmlPlaceholder { text },
    }
}

/// `Hash::hash` of a value into a `DefaultHasher`. What it writes depends on
/// the value's `Hash` impl and on the machine (the width of `usize`); nothing
/// of it is stated.
#[verifier::external_body]
fn hash_into<T: Hash>(value: &T, hasher: &mut DefaultHasher) {
    value.hash(hasher);
}

/// A key for the laid-out size of a block, hashed from its id, span and text.
fn cache_key(block: &MarkdownBlock) -> LayoutCacheKey {
    let mut hasher = DefaultHasher::new();
    hash_into(&block.id, &mut hasher);
    hash_into(&block.source_span, &mut hasher);
    hash_into(&block.text, &mut hasher);
    LayoutCacheKey(hasher.finish())
}

/// The render block of a markdown block: same id and span, the kind as
/// `render_kind_spec` says.
pub fn block_to_render(block: &MarkdownBlock) -> (r: RenderBlock)
    ensures
        r.id == block.id,
        r.source_span == block.source_span,
        r.kind@ == render_kind_spec(*block),
{
    let kind = match &block.kind {
        MarkdownBlockKind::Heading { level, title } => RenderBlockKind::Heading {
            level: *level,
            title: title.clone(),
        },
        MarkdownBlockKind::Paragraph => RenderBlockKind::Paragraph { text: block.text.clone() },
        MarkdownBlockKind::List => RenderBlockKind::List { text: block.text.clone() },
        MarkdownBlockKind::TaskList => RenderBlockKind::TaskList { text: block.text.clone() },
        MarkdownBlockKind::CodeBlock { language } => {
            let language = match language {
                Some(l) => Some(l.clone()),
                None => None,
            };
            RenderBlockKind::CodeBlock { language, code: block.text.clone() }
        },
        MarkdownBlockKind::Quote => RenderBlockKind::Quote { text: block.text.clone() },
        MarkdownBlockKind::Rule => RenderBlockKind::Rule,
        MarkdownBlockKind::Table => RenderBlockKind::Table { text: block.text.clone() },
        MarkdownBlockKind::Html => RenderBlockKind::HtmlPlaceholder { text: block.text.clone() },
    };
    RenderBlock {
        id: block.id,
        source_span: block.source_span,
        layout_cache_key: cache_key(block),
        kind,
    }
}

// ----------------------------------------------------------------------------
// The plain-text preview.

pub open spec fn is_emphasis_mark(c: char) -> bool {
    c == '`' || c == '*' || c == '_'
}

/// The text after a link label: a `(…)` target right after it is dropped
/// (to the first `)`, or to the end).
pub open spec fn skip_link_target(after: Seq<char>) -> Seq<char> {
    if after.len() > 0 && after[0] == '(' {
        let m = find_char(after, ')') as int;
        if m < after.len() {
            after.skip(m + 1)
        } else {
            Seq::empty()
        }
    } else {
        after
    }
}

/// Inline markdown removed: backticks, `*` and `_` are dropped, and a
/// `[label](target)` keeps only its label.
pub open spec fn strip_inline_spec(s: Seq<char>) -> Seq<char>
    decreases s.len(),
{
    if s.len() == 0 {
        Seq::empty()
    } else if is_emphasis_mark(s[0]) {
        strip_inline_spec(s.drop_first())
    } else if s[0] == '[' {
        let rest = s.drop_first();
        let k = find_char(rest, ']') as int;
        proof {
            lemma_find_char(rest, ']');
            lemma_find_char(rest.skip(k + 1), ')');
        }
        let after = if k < rest.len() {
            rest.skip(k + 1)
        } else {
            Seq::empty()
        };
        rest.take(k) + strip_inline_spec(skip_link_target(after))
    } else {
        seq![s[0]] + strip_inline_spec(s.drop_first())
    }
}

/// A list line without its marker (`- `, `* `, `+ `, or digits, `.` and the
/// whitespace after them), leading whitespace removed.
pub open spec fn strip_list_marker_spec(line: Seq<char>) -> Seq<char> {
    let t = trim_start(line);
    if has_prefix(t, seq!['-', ' ']) || has_prefix(t, seq!['*', ' ']) || has_prefix(
        t,
        seq!['+', ' '],
    ) {
        t.skip(2)
    } else if is_ordered_item(t) {
        trim_start(t.skip(find_char(t, '.') + 1int))
    } else {
        t
    }
}

/// A task marker: `- `, `* ` or `+ `, then `[ ]`, `[x]` or `[X]`, then a space.
pub open spec fn has_task_marker(t: Seq<char>) -> bool {
    ||| has_prefix(t, task_prefix('-', ' '))
    ||| has_prefix(t, task_prefix('*', ' '))
    ||| has_prefix(t, task_prefix('+', ' '))
    ||| has_prefix(t, task_prefix('-', 'x'))
    ||| has_prefix(t, task_prefix('-', 'X'))
    ||| has_prefix(t, task_prefix('*', 'x'))
    ||| has_prefix(t, task_prefix('*', 'X'))
    ||| has_prefix(t, task_prefix('+', 'x'))
    ||| has_prefix(t, task_prefix('+', 'X'))
}

/// A task line without its marker, leading whitespace removed.
pub open spec fn strip_task_marker_spec(line: Seq<char>) -> Seq<char> {
    let t = trim_start(line);
    if has_task_marker(t) {
        t.skip(6)
    } else {
        t
    }
}

/// A quote line without its `>` and the whitespace around it.
pub open spec fn strip_quote_marker_spec(line: Seq<char>) -> Seq<char> {
    let t = trim_start(line);
    if has_prefix(t, seq!['>']) {
        trim_start(t.skip(1))
    } else {
        t
    }
}

pub open spec fn is_fence_line(l: Seq<char>) -> bool {
    is_closing_fence_spec(trim_start(l))
}

/// The code without an opening fence line and a closing fence line.
pub open spec fn strip_fence_spec(code: Seq<char>) -> Seq<char> {
    let ls = std_lines(code);
    let body = if ls.len() > 0 && is_fence_line(ls[0]) {
        ls.drop_first()
    } else {
        ls
    };
    let body2 = if body.len() > 0 && is_fence_line(body.last()) {
        body.drop_last()
    } else {
        body
    };
    join_with(body2, seq!['\n'])
}

pub open spec fn list_line_preview(line: Seq<char>) -> Seq<char> {
    seq!['-', ' '] + trim(strip_list_marker_spec(line))
}

pub open spec fn code_label() -> Seq<char> {
    seq!['C', 'o', 'd', 'e']
}

pub open spec fn rule_text() -> Seq<char> {
    Seq::new(16, |i: int| '-')
}

pub open spec fn html_label() -> Seq<char> {
    seq!['[', 'H', 'T', 'M', 'L', ']', '\n']
}

/// The plain-text preview of a block.
pub open spec fn preview_spec(kind: RenderKindView) -> Seq<char> {
    match kind {
        RenderKindView::Heading { title, .. } => title,
        RenderKindView::Paragraph { text } => strip_inline_spec(text),
        RenderKindView::List { text } => join_with(
            std_lines(text).map_values(|l: Seq<char>| list_line_preview(l)),
            seq!['\n'],
        ),
        RenderKindView::TaskList { text } => join_with(
            std_lines(text).map_values(|l: Seq<char>| strip_task_marker_spec(l)),
            seq!['\n'],
        ),
        RenderKindView::CodeBlock { language, code } => match language {
            Some(l) => code_label() + seq![' ', '('] + l + seq![')', '\n'] + strip_fence_spec(code),
            None => code_label() + seq!['\n'] + strip_fence_spec(code),
        },
        RenderKindView::Quote { text } => join_with(
            std_lines(text).map_values(|l: Seq<char>| trim(strip_quote_marker_spec(l))),
            seq!['\n'],
        ),
        RenderKindView::Rule => rule_text(),
        RenderKindView::Table { text } => text,
        RenderKindView::HtmlPlaceholder { text } => html_label() + text,
    }
}

pub open spec fn render_blocks_preview(blocks: Seq<RenderBlock>) -> Seq<Seq<char>> {
    blocks.map_values(|b: RenderBlock| preview_spec(b.kind@))
}

/// The text with inline markdown removed (`strip_inline_spec`).
fn strip_inline_markdown(text: &str) -> (s: String)
    ensures
        s@ == strip_inline_spec(text@),
{
    let v = char_vec(text);
    let n = v.len();
    let mut out: Vec<char> = Vec::new();
    let mut i: usize = 0;
    assert(v@.skip(0) == v@);
    while i < n
        invariant
            i <= n == v.len(),
            v@ == text@,
            out@ + strip_inline_spec(v@.skip(i as int)) == strip_inline_spec(v@),
        decreases n - i,
    {
        let ghost s = v@.skip(i as int);
        assert(s[0] == v@[i as int]);
        assert(s.drop_first() =~= v@.skip(i + 1));
        let c = v[i];
        if c == '`' || c == '*' || c == '_' {
            i += 1;
        } else if c == '[' {
            let j = find_from(&v, i + 1, ']');
            let ghost rest = s.drop_first();
            let ghost k = find_char(rest, ']') as int;
            assert(k == j - (i + 1));
            assert(rest.take(k) =~= v@.subrange(i + 1, j as int));
            let after_label = if j < n {
                j + 1
            } else {
                n
            };
            let ghost after = if k < rest.len() {
                rest.skip(k + 1)
            } else {
                Seq::<char>::empty()
            };
            assert(after =~= v@.skip(after_label as int));
            let next = if after_label < n && v[after_label] == '(' {
                let m = find_from(&v, after_label, ')');
                assert(after[0] == v@[after_label as int]);
                if m < n {
                    m + 1
                } else {
                    n
                }
            } else {
                if after_label < n {
                    assert(after[0] == v@[after_label as int]);
                }
                after_label
            };
            assert(skip_link_target(after) =~= v@.skip(next as int));
            let label = crate::text::chars_range(&v, i + 1, j);
            extend_chars(&mut out, label.as_slice());
            i = next;
        } else {
            out.push(c);
            i += 1;
        }
    }
    assert(v@.skip(n as int) =~= Seq::<char>::empty());
    assert(out@ + Seq::<char>::empty() =~= out@);
    string_from_chars(out.as_slice())
}

/// Where the text of a list line starts once its marker is dropped.
fn strip_list_marker(line: &Vec<char>) -> (r: usize)
    ensures
        r <= line.len(),
        line@.skip(r as int) == strip_list_marker_spec(line@),
{
    let len = line.len();
    let a = skip_ws(line, 0, len);
    assert(line@.subrange(0, len as int) == line@);
    let ghost t = trim_start(line@);
    assert(t =~= line@.skip(a as int));
    let dash: [char; 2] = ['-', ' '];
    let star: [char; 2] = ['*', ' '];
    let plus: [char; 2] = ['+', ' '];
    assert(dash@ == seq!['-', ' ']);
    assert(star@ == seq!['*', ' ']);
    assert(plus@ == seq!['+', ' ']);
    if has_prefix_at(line, a, &dash) || has_prefix_at(line, a, &star) || has_prefix_at(
        line,
        a,
        &plus,
    ) {
        assert(t.skip(2) =~= line@.skip(a + 2));
        return a + 2;
    }
    if crate::markdown_lines::is_list(line, a) {
        let d = find_from(line, a, '.');
        assert(t.skip(find_char(t, '.') + 1int) =~= line@.skip(d + 1));
        let b = skip_ws(line, d + 1, len);
        assert(line@.subrange(d + 1, len as int) =~= line@.skip(d + 1));
        assert(trim_start(line@.skip(d + 1)) =~= line@.skip(b as int));
        return b;
    }
    a
}

/// Where the text of a task line starts once its marker is dropped.
fn strip_task_marker(line: &Vec<char>) -> (r: usize)
    ensures
        r <= line.len(),
        line@.skip(r as int) == strip_task_marker_spec(line@),
{
    let len = line.len();
    let a = skip_ws(line, 0, len);
    assert(line@.subrange(0, len as int) == line@);
    let ghost t = trim_start(line@);
    assert(t =~= line@.skip(a as int));
    let p1: [char; 6] = ['-', ' ', '[', ' ', ']', ' '];
    let p2: [char; 6] = ['*', ' ', '[', ' ', ']', ' '];
    let p3: [char; 6] = ['+', ' ', '[', ' ', ']', ' '];
    let p4: [char; 6] = ['-', ' ', '[', 'x', ']', ' '];
    let p5: [char; 6] = ['-', ' ', '[', 'X', ']', ' '];
    let p6: [char; 6] = ['*', ' ', '[', 'x', ']', ' '];
    let p7: [char; 6] = ['*', ' ', '[', 'X', ']', ' '];
    let p8: [char; 6] = ['+', ' ', '[', 'x', ']', ' '];
    let p9: [char; 6] = ['+', ' ', '[', 'X', ']', ' '];
    assert(p1@ == task_prefix('-', ' '));
    assert(p2@ == task_prefix('*', ' '));
    assert(p3@ == task_prefix('+', ' '));
    assert(p4@ == task_prefix('-', 'x'));
    assert(p5@ == task_prefix('-', 'X'));
    assert(p6@ == task_prefix('*', 'x'));
    assert(p7@ == task_prefix('*', 'X'));
    assert(p8@ == task_prefix('+', 'x'));
    assert(p9@ == task_prefix('+', 'X'));
    if has_prefix_at(line, a, &p1) || has_prefix_at(line, a, &p2) || has_prefix_at(line, a, &p3)
        || has_prefix_at(line, a, &p4) || has_prefix_at(line, a, &p5) || has_prefix_at(
        line,
        a,
        &p6,
    ) || has_prefix_at(line, a, &p7) || has_prefix_at(line, a, &p8) || has_prefix_at(
        line,
        a,
        &p9,
    ) {
        assert(t.skip(6) =~= line@.skip(a + 6));
        return a + 6;
    }
    a
}

/// Where the text of a quote line starts once its `>` is dropped.
fn strip_quote_marker(line: &Vec<char>) -> (r: usize)
    ensures
        r <= line.len(),
        line@.skip(r as int) == strip_quote_marker_spec(line@),
{
    let len = line.len();
    let a = skip_ws(line, 0, len);
    assert(line@.subrange(0, len as int) == line@);
    let ghost t = trim_start(line@);
    assert(t =~= line@.skip(a as int));
    let quote: [char; 1] = ['>'];
    assert(quote@ == seq!['>']);
    if has_prefix_at(line, a, &quote) {
        let b = skip_ws(line, a + 1, len);
        assert(line@.subrange(a + 1, len as int) =~= t.skip(1));
        assert(trim_start(t.skip(1)) =~= line@.skip(b as int));
        b
    } else {
        a
    }
}

/// The parts joined with `sep`.
fn join_chars(parts: &Vec<Vec<char>>, sep: &[char]) -> (r: Vec<char>)
    ensures
        r@ == join_with(parts@.map_values(|p: Vec<char>| p@), sep@),
{
    let ghost ps = parts@.map_values(|p: Vec<char>| p@);
    let mut r: Vec<char> = Vec::new();
    let mut i: usize = 0;
    while i < parts.len()
        invariant
            i <= parts.len(),
            ps == parts@.map_values(|p: Vec<char>| p@),
            r@ == join_with(ps.take(i as int), sep@),
        decreases parts.len() - i,
    {
        assert(ps.take(i + 1).drop_last() =~= ps.take(i as int));
        assert(ps.take(i + 1).last() == parts@[i as int]@);
        if i > 0 {
            extend_chars(&mut r, sep);
        } else {
            assert(ps.take(1) =~= seq![parts@[0]@]);
        }
        extend_chars(&mut r, parts[i].as_slice());
        i += 1;
    }
    assert(ps.take(parts.len() as int) =~= ps);
    r
}

/// The code with its opening and closing fence lines dropped.
fn strip_fence(code: &str) -> (s: Vec<char>)
    ensures
        s@ == strip_fence_spec(code@),
{
    let v = char_vec(code);
    let mut lines = text_lines(&v);
    let ghost ls = std_lines(code@);
    let mut body: Vec<Vec<char>> = Vec::new();
    let mut i: usize = 0;
    if lines.len() > 0 && crate::render::is_fence(&lines[0]) {
        i = 1;
    }
    let ghost body0 = if ls.len() > 0 && is_fence_line(ls[0]) {
        ls.drop_first()
    } else {
        ls
    };
    assert(lines@.len() == ls.len());
    assert(forall|k: int| 0 <= k < ls.len() ==> #[trigger] lines@[k]@ == ls[k]);
    let start = i;
    while i < lines.len()
        invariant
            start <= i <= lines.len(),
            lines@.len() == ls.len(),
            forall|k: int| 0 <= k < ls.len() ==> #[trigger] lines@[k]@ == ls[k],
            body0 == ls.skip(start as int),
            body@.map_values(|p: Vec<char>| p@) == body0.take(i - start),
        decreases lines.len() - i,
    {
        let line = crate::text::chars_prefix(&lines[i], lines[i].len());
        assert(lines@[i as int]@.take(lines@[i as int]@.len() as int) == lines@[i as int]@);
        assert(body0.take(i - start + 1) =~= body0.take(i - start).push(line@));
        assert(body@.push(line).map_values(|p: Vec<char>| p@) =~= body@.map_values(
            |p: Vec<char>| p@,
        ).push(line@));
        body.push(line);
        i += 1;
    }
    assert(body0.take(i - start) =~= body0);
    if body.len() > 0 && is_fence(&body[body.len() - 1]) {
        body.pop();
        assert(body@.map_values(|p: Vec<char>| p@) =~= body0.drop_last());
    }
    let newline: [char; 1] = ['\n'];
    assert(newline@ == seq!['\n']);
    join_chars(&body, &newline)
}

/// Whether a line opens or closes a code fence.
fn is_fence(line: &Vec<char>) -> (b: bool)
    ensures
        b == is_fence_line(line@),
{
    let a = skip_ws(line, 0, line.len());
    assert(line@.subrange(0, line.len() as int) == line@);
    assert(trim_start(line@) =~= line@.skip(a as int));
    crate::markdown_lines::is_closing_fence(line, a)
}

/// A list (`0`), task list (`1`) or quote (`2`) line with its marker dropped.
pub open spec fn marked_line_preview(which: u8, l: Seq<char>) -> Seq<char> {
    if which == 0 {
        list_line_preview(l)
    } else if which == 1 {
        strip_task_marker_spec(l)
    } else {
        trim(strip_quote_marker_spec(l))
    }
}

/// The preview lines of a list, task list or quote: each source line
/// (`str::lines`) with its marker dropped.
fn marked_lines_preview(text: &str, which: u8) -> (r: Vec<char>)
    requires
        which <= 2,
    ensures
        which == 0 ==> r@ == join_with(
            std_lines(text@).map_values(|l: Seq<char>| list_line_preview(l)),
            seq!['\n'],
        ),
        which == 1 ==> r@ == join_with(
            std_lines(text@).map_values(|l: Seq<char>| strip_task_marker_spec(l)),
            seq!['\n'],
        ),
        which == 2 ==> r@ == join_with(
            std_lines(text@).map_values(|l: Seq<char>| trim(strip_quote_marker_spec(l))),
            seq!['\n'],
        ),
{
    let v = char_vec(text);
    let lines = text_lines(&v);
    let ghost ls = std_lines(text@);
    assert(lines@.len() == ls.len());
    assert(forall|k: int| 0 <= k < ls.len() ==> #[trigger] lines@[k]@ == ls[k]);
    let mut parts: Vec<Vec<char>> = Vec::new();
    let mut i: usize = 0;
    while i < lines.len()
        invariant
            i <= lines.len() == ls.len(),
            which <= 2,
            forall|k: int| 0 <= k < ls.len() ==> #[trigger] lines@[k]@ == ls[k],
            parts@.map_values(|p: Vec<char>| p@) == ls.take(i as int).map_values(|l: Seq<char>| marked_line_preview(which, l)),
        decreases lines.len() - i,
    {
        let line = &lines[i];
        let len = line.len();
        let part = if which == 0 {
            let m = strip_list_marker(line);
            let a = skip_ws(line, m, len);
            let b = skip_ws_back(line, a, len);
            assert(line@.subrange(m as int, len as int) =~= line@.skip(m as int));
            assert(trim_start(line@.skip(m as int)) =~= line@.subrange(a as int, len as int));
            assert(trim(line@.skip(m as int)) =~= line@.subrange(a as int, b as int));
            let mut p: Vec<char> = Vec::new();
            p.push('-');
            p.push(' ');
            let body = crate::text::chars_range(line, a, b);
            extend_chars(&mut p, body.as_slice());
            assert(p@ =~= list_line_preview(line@));
            p
        } else if which == 1 {
            let m = strip_task_marker(line);
            assert(line@.subrange(m as int, len as int) =~= line@.skip(m as int));
            crate::text::chars_range(line, m, len)
        } else {
            let m = strip_quote_marker(line);
            let a = skip_ws(line, m, len);
            let b = skip_ws_back(line, a, len);
            assert(line@.subrange(m as int, len as int) =~= line@.skip(m as int));
            assert(trim_start(line@.skip(m as int)) =~= line@.subrange(a as int, len as int));
            assert(trim(line@.skip(m as int)) =~= line@.subrange(a as int, b as int));
            crate::text::chars_range(line, a, b)
        };
        assert(line@ == ls[i as int]);
        assert(part@ == marked_line_preview(which, line@));
        assert(ls.take(i + 1).map_values(|l: Seq<char>| marked_line_preview(which, l)) =~= ls.take(i as int).map_values(|l: Seq<char>| marked_line_preview(which, l)).push(part@));
        assert(parts@.push(part).map_values(|p: Vec<char>| p@) =~= parts@.map_values(
            |p: Vec<char>| p@,
        ).push(part@));
        parts.push(part);
        i += 1;
    }
    assert(ls.take(lines.len() as int) =~= ls);
    let newline: [char; 1] = ['\n'];
    assert(newline@ == seq!['\n']);
    let r = join_chars(&parts, &newline);
    assert(std_lines(text@).map_values(|l: Seq<char>| marked_line_preview(which, l)) == parts@.map_values(|p: Vec<char>| p@));
    if which == 0 {
        assert(std_lines(text@).map_values(|l: Seq<char>| marked_line_preview(which, l)) =~= std_lines(text@).map_values(
            |l: Seq<char>| list_line_preview(l),
        ));
    } else if which == 1 {
        assert(std_lines(text@).map_values(|l: Seq<char>| marked_line_preview(which, l)) =~= std_lines(text@).map_values(
            |l: Seq<char>| strip_task_marker_spec(l),
        ));
    } else {
        assert(std_lines(text@).map_values(|l: Seq<char>| marked_line_preview(which, l)) =~= std_lines(text@).map_values(
            |l: Seq<char>| trim(strip_quote_marker_spec(l)),
        ));
    }
    r
}

/// The plain-text preview of one block (`preview_spec`).
fn plain_preview_block(block: &RenderBlock) -> (s: String)
    ensures
        s@ == preview_spec(block.kind@),
{
    match &block.kind {
        RenderBlockKind::Heading { title, .. } => title.clone(),
        RenderBlockKind::Paragraph { text } => strip_inline_markdown(text.as_str()),
        RenderBlockKind::List { text } => {
            let r = marked_lines_preview(text.as_str(), 0);
            string_from_chars(r.as_slice())
        },
        RenderBlockKind::TaskList { text } => {
            let r = marked_lines_preview(text.as_str(), 1);
            string_from_chars(r.as_slice())
        },
        RenderBlockKind::CodeBlock { language, code } => {
            let body = strip_fence(code.as_str());
            let mut out: Vec<char> = Vec::new();
            let label: [char; 4] = ['C', 'o', 'd', 'e'];
            assert(label@ == code_label());
            extend_chars(&mut out, &label);
            match language {
                Some(language) => {
                    out.push(' ');
                    out.push('(');
                    let l = char_vec(language.as_str());
                    extend_chars(&mut out, l.as_slice());
                    out.push(')');
                    out.push('\n');
                    extend_chars(&mut out, body.as_slice());
                    assert(out@ =~= code_label() + seq![' ', '('] + language@ + seq![')', '\n']
                        + body@);
                },
                None => {
                    out.push('\n');
                    extend_chars(&mut out, body.as_slice());
                    assert(out@ =~= code_label() + seq!['\n'] + body@);
                },
            }
            string_from_chars(out.as_slice())
        },
        RenderBlockKind::Quote { text } => {
            let r = marked_lines_preview(text.as_str(), 2);
            string_from_chars(r.as_slice())
        },
        RenderBlockKind::Rule => {
            let dashes: [char; 16] = ['-'; 16];
            assert(dashes@ =~= rule_text());
            string_from_chars(&dashes)
        },
        RenderBlockKind::Table { text } => text.clone(),
        RenderBlockKind::HtmlPlaceholder { text } => {
            let mut out: Vec<char> = Vec::new();
            let label: [char; 7] = ['[', 'H', 'T', 'M', 'L', ']', '\n'];
            assert(label@ == html_label());
            extend_chars(&mut out, &label);
            let t = char_vec(text.as_str());
            extend_chars(&mut out, t.as_slice());
            string_from_chars(out.as_slice())
        },
    }
}

/// The plain-text preview of the blocks, separated by blank lines.
pub fn plain_preview_text(blocks: &[RenderBlock]) -> (s: String)
    ensures
        s@ == join_with(render_blocks_preview(blocks@), seq!['\n', '\n']),
{
    let mut parts: Vec<Vec<char>> = Vec::new();
    let ghost ps = render_blocks_preview(blocks@);
    let mut i: usize = 0;
    while i < blocks.len()
        invariant
            i <= blocks.len(),
            ps == render_blocks_preview(blocks@),
            parts@.map_values(|p: Vec<char>| p@) == ps.take(i as int),
        decreases blocks.len() - i,
    {
        let text = plain_preview_block(&blocks[i]);
        let part = char_vec(text.as_str());
        assert(ps.take(i + 1) =~= ps.take(i as int).push(part@));
        assert(parts@.push(part).map_values(|p: Vec<char>| p@) =~= parts@.map_values(
            |p: Vec<char>| p@,
        ).push(part@));
        parts.push(part);
        i += 1;
    }
    assert(ps.take(blocks.len() as int) =~= ps);
    let sep: [char; 2] = ['\n', '\n'];
    assert(sep@ == seq!['\n', '\n']);
    let r = join_chars(&parts, &sep);
    string_from_chars(r.as_slice())
}

/// The render blocks of a snapshot's blocks, in order.
pub fn render_blocks(snapshot: &MarkdownSnapshot) -> (r: Vec<RenderBlock>)
    ensures
        r@.len() == snapshot.blocks@.len(),
        forall|i: int|
            0 <= i < r@.len() ==> (#[trigger] r@[i]).id == snapshot.blocks@[i].id && r@[i].source_span
                == snapshot.blocks@[i].source_span && r@[i].kind@ == render_kind_spec(
                snapshot.blocks@[i],
            ),
{
    let mut r: Vec<RenderBlock> = Vec::new();
    let mut i: usize = 0;
    while i < snapshot.blocks.len()
        invariant
            i <= snapshot.blocks.len(),
            r@.len() == i,
            forall|k: int|
                0 <= k < i ==> (#[trigger] r@[k]).id == snapshot.blocks@[k].id && r@[k].source_span
                    == snapshot.blocks@[k].source_span && r@[k].kind@ == render_kind_spec(
                    snapshot.blocks@[k],
                ),
        decreases snapshot.blocks.len() - i,
    {
        r.push(block_to_render(&snapshot.blocks[i]));
        i += 1;
    }
    r
}

/// The plain-text preview of a snapshot: its blocks' previews, separated by
/// blank lines.
pub open spec fn snapshot_preview_spec(blocks: Seq<MarkdownBlock>) -> Seq<char> {
    join_with(
        blocks.map_values(|b: MarkdownBlock| preview_spec(render_kind_spec(b))),
        seq!['\n', '\n'],
    )
}

/// The plain-text preview of a snapshot.
pub fn preview_text_from_snapshot(snapshot: &MarkdownSnapshot) -> (s: String)
    ensures
        s@ == snapshot_preview_spec(snapshot.blocks@),
{
    let blocks = render_blocks(snapshot);
    let s = plain_preview_text(blocks.as_slice());
    assert(render_blocks_preview(blocks@) =~= snapshot.blocks@.map_values(
        |b: MarkdownBlock| preview_spec(render_kind_spec(b)),
    ));
    s
}

// ----------------------------------------------------------------------------
// The line count behind a block's estimated height.

/// The text whose lines give a block's height: a heading's title, a code
/// block's code, the text of the other kinds; a rule has none.
pub open spec fn measured_text_spec(kind: RenderKindView) -> Option<Seq<char>> {
    match kind {
        RenderKindView::Heading { title, .. } => Some(title),
        RenderKindView::Paragraph { text } => Some(text),
        RenderKindView::List { text } => Some(text),
        RenderKindView::TaskList { text } => Some(text),
        RenderKindView::CodeBlock { code, .. } => Some(code),
        RenderKindView::Quote { text } => Some(text),
        RenderKindView::Rule => None,
        RenderKindView::Table { text } => Some(text),
        RenderKindView::HtmlPlaceholder { text } => Some(text),
    }
}

/// See `measured_text_spec`.
pub fn measured_text(kind: &RenderBlockKind) -> (t: Option<&String>)
    ensures
        match measured_text_spec(kind@) {
            Some(m) => t matches Some(s) && s@ == m,
            None => t is None,
        },
{
    match kind {
        RenderBlockKind::Heading { title, .. } => Some(title),
        RenderBlockKind::Paragraph { text } => Some(text),
        RenderBlockKind::List { text } => Some(text),
        RenderBlockKind::TaskList { text } => Some(text),
        RenderBlockKind::CodeBlock { code, .. } => Some(code),
        RenderBlockKind::Quote { text } => Some(text),
        RenderBlockKind::Rule => None,
        RenderBlockKind::Table { text } => Some(text),
        RenderBlockKind::HtmlPlaceholder { text } => Some(text),
    }
}

/// The rows of the lines when a line of `n` characters takes `n / per_line`
/// rows, and at least one.
pub open spec fn wrapped_rows(lines: Seq<Seq<char>>, per_line: int) -> int
    decreases lines.len(),
{
    if lines.len() == 0 {
        0
    } else {
        (if (lines[0].len() as int) / per_line >= 1 {
            (lines[0].len() as int) / per_line
        } else {
            1
        }) + wrapped_rows(lines.drop_first(), per_line)
    }
}

/// The estimated line count of a text at `per_line` characters per line:
/// the rows of its lines (as `str::lines` cuts them), and at least one.
pub open spec fn estimated_lines_spec(t: Seq<char>, per_line: int) -> int {
    let rows = wrapped_rows(std_lines(t), per_line);
    if rows >= 1 {
        rows
    } else {
        1
    }
}

/// The rows of the lines of a text are at most its length.
proof fn lemma_wrapped_rows_bound(t: Seq<char>, per_line: int)
    requires
        per_line > 0,
    ensures
        0 <= wrapped_rows(std_lines(t), per_line) <= t.len(),
    decreases t.len(),
{
    if t.len() > 0 {
        let k = piece_len(t);
        lemma_find_newline(t);
        let line = std_line(t.take(k));
        assert(std_lines(t).drop_first() =~= std_lines(t.skip(k)));
        assert(line.len() <= k);
        assert((line.len() as int) / per_line <= line.len()) by (nonlinear_arith)
            requires
                per_line > 0,
                line.len() >= 0,
        ;
        lemma_wrapped_rows_bound(t.skip(k), per_line);
    }
}

/// The estimated line count of a text at `per_line` characters per line.
pub fn estimated_line_count(text: &str, per_line: usize) -> (n: usize)
    requires
        per_line > 0,
    ensures
        n == estimated_lines_spec(text@, per_line as int),
{
    let v = char_vec(text);
    let lines = text_lines(&v);
    let ghost ls = std_lines(v@);
    proof {
        lemma_wrapped_rows_bound(v@, per_line as int);
        assert(lines@.map_values(|l: Vec<char>| l@) =~= ls);
        assert(ls.skip(0) =~= ls);
    }
    let mut rows: usize = 0;
    let mut i: usize = 0;
    while i < lines.len()
        invariant
            i <= lines.len() == ls.len(),
            per_line > 0,
            forall|j: int| 0 <= j < ls.len() ==> #[trigger] lines@[j]@ == ls[j],
            rows + wrapped_rows(ls.skip(i as int), per_line as int) == wrapped_rows(
                ls,
                per_line as int,
            ),
            wrapped_rows(ls, per_line as int) <= usize::MAX,
            0 <= wrapped_rows(ls.skip(i as int), per_line as int),
        decreases lines.len() - i,
    {
        assert(lines@.map_values(|l: Vec<char>| l@)[i as int] == lines@[i as int]@);
        let count = lines[i].len();
        let wrapped = count / per_line;
        let line_rows = if wrapped >= 1 {
            wrapped
        } else {
            1
        };
        proof {
            let rest = ls.skip(i as int);
            assert(rest[0] == ls[i as int]);
            assert(rest.drop_first() =~= ls.skip(i + 1));
            assert(0 <= wrapped_rows(ls.skip(i + 1), per_line as int)) by {
                lemma_wrapped_rows_nonneg(ls.skip(i + 1), per_line as int);
            }
        }
        rows = rows + line_rows;
        i += 1;
    }
    if rows >= 1 {
        rows
    } else {
        1
    }
}

proof fn lemma_wrapped_rows_nonneg(lines: Seq<Seq<char>>, per_line: int)
    requires
        per_line > 0,
    ensures
        wrapped_rows(lines, per_line) >= 0,
    decreases lines.len(),
{
    if lines.len() > 0 {
        lemma_wrapped_rows_nonneg(lines.drop_first(), per_line);
    }
}

// ----------------------------------------------------------------------------
// Laws of the render model.

/// Each markdown block kind becomes the render kind of the same name (an
/// HTML block the HTML placeholder), and no other kind becomes it; the
/// render kind carries the block's text (a heading its title and level, a
/// code block its language, a rule nothing).
pub proof fn law_render_kind_keeps_kind_and_text(block: MarkdownBlock)
    ensures
        (block.kind is Heading) <==> (render_kind_spec(block) is Heading),
        (block.kind is Paragraph) <==> (render_kind_spec(block) is Paragraph),
        (block.kind is List) <==> (render_kind_spec(block) is List),
        (block.kind is TaskList) <==> (render_kind_spec(block) is TaskList),
        (block.kind is CodeBlock) <==> (render_kind_spec(block) is CodeBlock),
        (block.kind is Quote) <==> (render_kind_spec(block) is Quote),
        (block.kind is Rule) <==> (render_kind_spec(block) is Rule),
        (block.kind is Table) <==> (render_kind_spec(block) is Table),
        (block.kind is Html) <==> (render_kind_spec(block) is HtmlPlaceholder),
        block.kind matches MarkdownBlockKind::Heading { level, title } ==> render_kind_spec(block)
            == (RenderKindView::Heading { level, title: title@ }),
        block.kind matches MarkdownBlockKind::CodeBlock { language } ==> render_kind_spec(block)
            == (RenderKindView::CodeBlock {
            language: crate::markdown::option_string_view(language),
            code: block.text@,
        }),
        !(block.kind is Heading) && !(block.kind is CodeBlock) && !(block.kind is Rule)
            ==> measured_text_spec(render_kind_spec(block)) == Some(block.text@),
{
}

/// A paragraph without a link label previews as its text with every
/// backtick, `*` and `_` removed and every other character kept, in order.
pub proof fn law_paragraph_preview_drops_emphasis(text: Seq<char>)
    requires
        !text.contains('['),
    ensures
        preview_spec(RenderKindView::Paragraph { text }) == text.filter(
            |c: char| c != '`' && c != '*' && c != '_',
        ),
    decreases text.len(),
{
    let keep = |c: char| c != '`' && c != '*' && c != '_';
    if text.len() == 0 {
        reveal(Seq::filter);
        assert(text.filter(keep) =~= Seq::<char>::empty());
    } else {
        let rest = text.drop_first();
        assert(!rest.contains('[')) by {
            if rest.contains('[') {
                let i = choose|i: int| 0 <= i < rest.len() && rest[i] == '[';
                assert(text[i + 1] == '[');
            }
        }
        law_paragraph_preview_drops_emphasis(rest);
        assert(text =~= seq![text[0]] + rest);
        Seq::<char>::filter_distributes_over_add(seq![text[0]], rest, keep);
        reveal_with_fuel(Seq::filter, 2);
        assert(seq![text[0]].drop_last() =~= Seq::<char>::empty());
        assert(text[0] != '[') by {
            assert(text[0] == text[0]);
        }
        if keep(text[0]) {
            assert(seq![text[0]].filter(keep) =~= seq![text[0]]);
        } else {
            assert(seq![text[0]].filter(keep) =~= Seq::<char>::empty());
        }
    }
}

} // verus!
