//! Display geometry of the source pane: soft wrapping of text at a column
//! count, the mapping between text positions and visual (wrapped) rows and
//! columns, and between byte and character offsets of a text.
use crate::document::{
    char_to_position_spec, min_int, visible_len, DocumentState, TextPosition,
};
use crate::rope::line_count_of;
use crate::text::{
    char_len_utf8, char_vec, join_with, piece_len, std_line, std_lines, string_from_chars,
    text_lines, utf8_len,
};
use vstd::prelude::*;

verus! {

// ----------------------------------------------------------------------------
// Soft wrapping.

/// A line wrapped at `w` columns, with `col` characters already on the
/// current row: a line break goes in whenever a row is full.
pub open spec fn wrap_from(l: Seq<char>, w: int, col: int) -> Seq<char>
    decreases l.len(),
{
    if l.len() == 0 {
        Seq::empty()
    } else if col == w {
        seq!['\n', l[0]] + wrap_from(l.drop_first(), w, 1)
    } else {
        seq![l[0]] + wrap_from(l.drop_first(), w, col + 1)
    }
}

pub open spec fn max_int(a: int, b: int) -> int {
    if a >= b {
        a
    } else {
        b
    }
}

/// The text with each line (`str::lines`) wrapped at `max(w, 1)` columns;
/// a final line break is kept.
pub open spec fn soft_wrap_spec(text: Seq<char>, w: int) -> Seq<char> {
    let w1 = max_int(w, 1);
    join_with(std_lines(text).map_values(|l: Seq<char>| wrap_from(l, w1, 0)), seq!['\n']) + if text.len()
        > 0 && text.last() == '\n' {
        seq!['\n']
    } else {
        Seq::empty()
    }
}

/// Appends the line, wrapped at `wrap_columns` columns, to `out`.
fn soft_wrap_line_into(line: &Vec<char>, wrap_columns: usize, out: &mut Vec<char>)
    requires
        wrap_columns >= 1,
    ensures
        final(out)@ == old(out)@ + wrap_from(line@, wrap_columns as int, 0),
{
    if line.len() == 0 {
        return;
    }
    let mut col: usize = 0;
    let mut i: usize = 0;
    assert(line@.skip(0) == line@);
    while i < line.len()
        invariant
            i <= line.len(),
            wrap_columns >= 1,
            col <= wrap_columns,
            old(out)@ + wrap_from(line@, wrap_columns as int, 0) == out@ + wrap_from(
                line@.skip(i as int),
                wrap_columns as int,
                col as int,
            ),
        decreases line.len() - i,
    {
        let ghost rest = line@.skip(i as int);
        assert(rest[0] == line@[i as int]);
        assert(rest.drop_first() =~= line@.skip(i + 1));
        if col == wrap_columns {
            out.push('\n');
            col = 0;
        }
        out.push(line[i]);
        col += 1;
        i += 1;
    }
    assert(line@.skip(i as int) =~= Seq::<char>::empty());
}

/// The text with each line wrapped at `max(wrap_columns, 1)` columns.
pub fn soft_wrap_text(text: &str, wrap_columns: usize) -> (s: String)
    ensures
        s@ == soft_wrap_spec(text@, wrap_columns as int),
{
    let wrap_columns = if wrap_columns < 1 {
        1
    } else {
        wrap_columns
    };
    let v = char_vec(text);
    let lines = text_lines(&v);
    let ghost ls = std_lines(text@);
    let ghost w = wrap_columns as int;
    assert(lines@.len() == ls.len());
    assert(forall|k: int| 0 <= k < ls.len() ==> #[trigger] lines@[k]@ == ls[k]);
    let mut wrapped: Vec<char> = Vec::new();
    let mut i: usize = 0;
    while i < lines.len()
        invariant
            i <= lines.len() == ls.len(),
            w == wrap_columns as int,
            wrap_columns >= 1,
            forall|k: int| 0 <= k < ls.len() ==> #[trigger] lines@[k]@ == ls[k],
            wrapped@ == join_with(
                ls.take(i as int).map_values(|l: Seq<char>| wrap_from(l, w, 0)),
                seq!['\n'],
            ),
        decreases lines.len() - i,
    {
        let ghost before = ls.take(i as int).map_values(|l: Seq<char>| wrap_from(l, w, 0));
        let ghost after = ls.take(i + 1).map_values(|l: Seq<char>| wrap_from(l, w, 0));
        assert(after.drop_last() =~= before);
        assert(after.last() == wrap_from(lines@[i as int]@, w, 0));
        if i > 0 {
            wrapped.push('\n');
        } else {
            assert(after =~= seq![wrap_from(lines@[0]@, w, 0)]);
        }
        soft_wrap_line_into(&lines[i], wrap_columns, &mut wrapped);
        i += 1;
    }
    assert(ls.take(lines.len() as int) =~= ls);
    if v.len() > 0 && v[v.len() - 1] == '\n' {
        wrapped.push('\n');
    }
    string_from_chars(wrapped.as_slice())
}

// ----------------------------------------------------------------------------
// Visual rows and columns.

/// `usize::div_ceil`.
pub open spec fn ceil_div(a: int, b: int) -> int {
    a / b + if a % b == 0 {
        0int
    } else {
        1int
    }
}

/// The visual rows of a line of `len` characters wrapped at `w` columns (at
/// least one).
pub open spec fn rows_for(len: int, w: int) -> int {
    max_int(ceil_div(len, w), 1)
}

/// The visual rows of the lines before `line`.
pub open spec fn rows_before(t: Seq<char>, line: int, w: int) -> int
    decreases line,
{
    if line <= 0 {
        0
    } else {
        rows_before(t, line - 1, w) + rows_for(visible_len(t, line - 1) as int, w)
    }
}

/// The visual row and column of a text position (line and offset clamped
/// as `position_to_char` does), wrapped at `max(w, 1)` columns.
pub open spec fn text_to_visual_spec(t: Seq<char>, p: TextPosition, w: int) -> (int, int) {
    let w1 = max_int(w, 1);
    let line = min_int(p.line as int, line_count_of(t) - 1);
    let ch = min_int(p.character as int, visible_len(t, line) as int);
    (rows_before(t, line, w1) + ch / w1, ch % w1)
}

/// The line holding a visual row, searching from `line` whose first row is
/// `base`, and the offset that the row and column give in it before
/// clamping; past the last line, the last line and the column.
pub open spec fn visual_search(t: Seq<char>, row: int, col: int, w: int, line: int, base: int) -> (
    int,
    int,
)
    decreases line_count_of(t) - line,
{
    if line < 0 || line >= line_count_of(t) {
        (line_count_of(t) - 1, col)
    } else {
        let rows = rows_for(visible_len(t, line) as int, w);
        if row < base + rows {
            (line, (row - base) * w + col)
        } else {
            visual_search(t, row, col, w, line + 1, base + rows)
        }
    }
}

/// The text position of a visual row and column, wrapped at `max(w, 1)`
/// columns; the offset is clamped to the line's visible length.
pub open spec fn visual_to_text_spec(t: Seq<char>, row: int, col: int, w: int) -> TextPosition {
    let (line, ch) = visual_search(t, row, col, max_int(w, 1), 0, 0);
    TextPosition {
        line: line as usize,
        character: min_int(ch, visible_len(t, line) as int) as usize,
    }
}

/// The visual rows of a line of `char_len` characters.
fn visual_rows_for_len(char_len: usize, wrap_columns: usize) -> (r: usize)
    requires
        wrap_columns >= 1,
    ensures
        r == rows_for(char_len as int, wrap_columns as int),
{
    let q = char_len / wrap_columns;
    assert(char_len % wrap_columns != 0 ==> q < char_len) by (nonlinear_arith)
        requires
            q == char_len / wrap_columns,
            wrap_columns >= 1,
    ;
    let c = if char_len % wrap_columns == 0 {
        q
    } else {
        q + 1
    };
    if c < 1 {
        1
    } else {
        c
    }
}

proof fn lemma_rows_before_monotone(t: Seq<char>, a: int, b: int, w: int)
    requires
        0 <= a <= b,
        w >= 1,
    ensures
        rows_before(t, a, w) <= rows_before(t, b, w),
    decreases b - a,
{
    if a < b {
        lemma_rows_before_monotone(t, a, b - 1, w);
    }
}

/// The visual row and column of a text position, at `max(wrap_columns, 1)`
/// columns per row.
pub fn text_position_to_visual_position(
    document: &DocumentState,
    position: TextPosition,
    wrap_columns: usize,
) -> (r: (usize, usize))
    requires
        text_to_visual_spec(document@.text, position, wrap_columns as int).0 <= usize::MAX,
    ensures
        (r.0 as int, r.1 as int) == text_to_visual_spec(document@.text, position, wrap_columns as int),
{
    let columns = if wrap_columns < 1 {
        1
    } else {
        wrap_columns
    };
    let ghost t = document@.text;
    let ghost w = columns as int;
    let count = document.line_count();
    let last = count.saturating_sub(1);
    let line = if position.line < last {
        position.line
    } else {
        last
    };
    let width = document.line_visible_char_count(line);
    let character = if position.character < width {
        position.character
    } else {
        width
    };
    proof {
        assert(rows_before(t, line as int, w) + (character as int) / w <= usize::MAX);
    }
    let mut offset: usize = 0;
    let mut l: usize = 0;
    while l < line
        invariant
            l <= line,
            w == columns as int,
            columns >= 1,
            t == document@.text,
            offset == rows_before(t, l as int, w),
            rows_before(t, line as int, w) <= usize::MAX,
        decreases line - l,
    {
        proof {
            lemma_rows_before_monotone(t, l + 1, line as int, w);
        }
        let rows = visual_rows_for_len(document.line_visible_char_count(l), columns);
        offset = offset + rows;
        l += 1;
    }
    (offset + character / columns, character % columns)
}

/// The text position of a visual row and column, at `max(wrap_columns, 1)`
/// columns per row.
pub fn visual_position_to_text_position(
    document: &DocumentState,
    visual_row: usize,
    visual_col: usize,
    wrap_columns: usize,
) -> (p: TextPosition)
    requires
        rows_before(
            document@.text,
            line_count_of(document@.text) as int,
            max_int(wrap_columns as int, 1),
        ) <= usize::MAX,
        visual_search(
            document@.text,
            visual_row as int,
            visual_col as int,
            max_int(wrap_columns as int, 1),
            0,
            0,
        ).1 <= usize::MAX,
    ensures
        p == visual_to_text_spec(
            document@.text,
            visual_row as int,
            visual_col as int,
            wrap_columns as int,
        ),
{
    let columns = if wrap_columns < 1 {
        1
    } else {
        wrap_columns
    };
    let ghost t = document@.text;
    let ghost w = columns as int;
    let count = document.line_count();
    let mut row_base: usize = 0;
    let mut line: usize = 0;
    while line < count
        invariant
            line <= count == line_count_of(t),
            w == columns as int,
            columns >= 1,
            t == document@.text,
            row_base == rows_before(t, line as int, w),
            row_base <= visual_row,
            w == max_int(wrap_columns as int, 1),
            rows_before(t, count as int, w) <= usize::MAX,
            visual_search(t, visual_row as int, visual_col as int, w, line as int, row_base as int)
                == visual_search(t, visual_row as int, visual_col as int, w, 0, 0),
            visual_search(t, visual_row as int, visual_col as int, w, 0, 0).1 <= usize::MAX,
        decreases count - line,
    {
        proof {
            lemma_rows_before_monotone(t, line + 1, count as int, w);
        }
        let line_len = document.line_visible_char_count(line);
        let visual_rows = visual_rows_for_len(line_len, columns);
        if visual_row < row_base + visual_rows {
            assert(visual_search(t, visual_row as int, visual_col as int, w, line as int, row_base as int)
                == (line as int, (visual_row - row_base) * w + visual_col));
            let wrapped_row = visual_row - row_base;
            let character = wrapped_row * columns + visual_col;
            return TextPosition {
                line,
                character: if character < line_len {
                    character
                } else {
                    line_len
                },
            };
        }
        row_base += visual_rows;
        line += 1;
    }
    let last_line = count.saturating_sub(1);
    let width = document.line_visible_char_count(last_line);
    TextPosition {
        line: last_line,
        character: if visual_col < width {
            visual_col
        } else {
            width
        },
    }
}

/// The visual row and column of the document's cursor.
pub fn cursor_visual_position(document: &DocumentState, wrap_columns: usize) -> (r: (usize, usize))
    requires
        text_to_visual_spec(
            document@.text,
            char_to_position_spec(document@.text, document@.selection.head as int),
            wrap_columns as int,
        ).0 <= usize::MAX,
    ensures
        (r.0 as int, r.1 as int) == text_to_visual_spec(
            document@.text,
            char_to_position_spec(document@.text, document@.selection.head as int),
            wrap_columns as int,
        ),
{
    let position = document.char_to_position(document.cursor());
    text_position_to_visual_position(document, position, wrap_columns)
}

// ----------------------------------------------------------------------------
// Byte and character offsets.

/// The byte offset of character `char_idx` (clamped to the text).
pub fn char_to_byte_offset(text: &str, char_idx: usize) -> (n: usize)
    requires
        utf8_len(text@) <= usize::MAX,
    ensures
        n == utf8_len(text@.take(min_int(char_idx as int, text@.len() as int))),
{
    let v = char_vec(text);
    let k = if char_idx < v.len() {
        char_idx
    } else {
        v.len()
    };
    proof {
        crate::text::lemma_utf8_len_prefix(v@, k as int);
    }
    let mut n: usize = 0;
    let mut i: usize = 0;
    while i < k
        invariant
            i <= k <= v.len(),
            n == utf8_len(v@.take(i as int)),
            utf8_len(v@.take(k as int)) <= usize::MAX,
        decreases k - i,
    {
        assert(v@.take(i + 1).drop_last() =~= v@.take(i as int));
        proof {
            crate::text::lemma_utf8_len_prefix(v@.take(k as int), i + 1);
            assert(v@.take(k as int).take(i + 1) =~= v@.take(i + 1));
        }
        n = n + char_len_utf8(v[i]);
        i += 1;
    }
    n
}

/// A byte offset that falls between characters (or past the end).
pub open spec fn on_char_boundary(t: Seq<char>, byte: int) -> bool {
    exists|k: int| 0 <= k <= t.len() && utf8_len(t.take(k)) == min_int(byte, utf8_len(t) as int)
}

/// The character index at a byte offset that falls between characters.
pub fn byte_to_char_idx(text: &str, byte: usize) -> (k: usize)
    requires
        utf8_len(text@) <= usize::MAX,
        on_char_boundary(text@, byte as int),
    ensures
        k <= text@.len(),
        utf8_len(text@.take(k as int)) == min_int(byte as int, utf8_len(text@) as int),
{
    let v = char_vec(text);
    let total = char_to_byte_offset(text, v.len());
    assert(text@.take(text@.len() as int) == text@);
    let bounded = if byte < total {
        byte
    } else {
        total
    };
    let mut n: usize = 0;
    let mut i: usize = 0;
    while i < v.len() && n < bounded
        invariant
            i <= v.len(),
            v@ == text@,
            n == utf8_len(v@.take(i as int)),
            n <= bounded,
            bounded == min_int(byte as int, utf8_len(v@) as int),
            utf8_len(v@) <= usize::MAX,
            exists|k: int| 0 <= k <= v@.len() && #[trigger] utf8_len(v@.take(k)) == bounded,
        decreases v.len() - i,
    {
        assert(v@.take(i + 1).drop_last() =~= v@.take(i as int));
        proof {
            crate::text::lemma_utf8_len_prefix(v@, i + 1);
        }
        let next = n + char_len_utf8(v[i]);
        proof {
            lemma_utf8_len_strictly_increasing(v@, i + 1);
            if next > bounded {
                let k = choose|k: int| 0 <= k <= v@.len() && #[trigger] utf8_len(v@.take(k)) == bounded;
                if k <= i {
                    lemma_utf8_len_increasing(v@, k, i as int);
                } else {
                    lemma_utf8_len_increasing(v@, i + 1, k);
                }
            }
        }
        n = next;
        i += 1;
    }
    proof {
        if n < bounded {
            assert(v@.take(i as int) =~= v@);
        }
    }
    i
}

proof fn lemma_utf8_len_strictly_increasing(s: Seq<char>, k: int)
    requires
        0 < k <= s.len(),
    ensures
        utf8_len(s.take(k - 1)) < utf8_len(s.take(k)),
{
    assert(s.take(k).drop_last() =~= s.take(k - 1));
}

proof fn lemma_utf8_len_increasing(s: Seq<char>, a: int, b: int)
    requires
        0 <= a <= b <= s.len(),
    ensures
        utf8_len(s.take(a)) <= utf8_len(s.take(b)),
        a < b ==> utf8_len(s.take(a)) < utf8_len(s.take(b)),
    decreases b - a,
{
    if a < b {
        lemma_utf8_len_increasing(s, a, b - 1);
        lemma_utf8_len_strictly_increasing(s, b);
    }
}

// ----------------------------------------------------------------------------
// Laws.

/// Scanning `s` with `c` characters already on the current row, no row
/// exceeds `w` characters.
pub open spec fn rows_fit(s: Seq<char>, w: int, c: int) -> bool
    decreases s.len(),
{
    if s.len() == 0 {
        true
    } else if s[0] == '\n' {
        rows_fit(s.drop_first(), w, 0)
    } else {
        c + 1 <= w && rows_fit(s.drop_first(), w, c + 1)
    }
}

proof fn lemma_wrap_from_fits(l: Seq<char>, w: int, col: int)
    requires
        w >= 1,
        0 <= col <= w,
        !l.contains('\n'),
    ensures
        rows_fit(wrap_from(l, w, col), w, col),
    decreases l.len(),
{
    if l.len() > 0 {
        assert(!l.drop_first().contains('\n')) by {
            if l.drop_first().contains('\n') {
                let i = choose|i: int| 0 <= i < l.drop_first().len() && l.drop_first()[i] == '\n';
                assert(l[i + 1] == '\n');
            }
        }
        assert(l[0] != '\n') by {
            if l[0] == '\n' {
                assert(l.contains('\n'));
            }
        }
        let o = wrap_from(l, w, col);
        if col == w {
            lemma_wrap_from_fits(l.drop_first(), w, 1);
            assert(o.drop_first() =~= seq![l[0]] + wrap_from(l.drop_first(), w, 1));
            assert(o.drop_first().drop_first() =~= wrap_from(l.drop_first(), w, 1));
            assert(o[0] == '\n');
            assert(o.drop_first()[0] == l[0]);
            assert(rows_fit(o.drop_first(), w, 0));
        } else {
            lemma_wrap_from_fits(l.drop_first(), w, col + 1);
            assert(o.drop_first() =~= wrap_from(l.drop_first(), w, col + 1));
            assert(o[0] == l[0]);
        }
    }
}

proof fn lemma_rows_fit_concat(a: Seq<char>, b: Seq<char>, w: int, c: int)
    requires
        rows_fit(a, w, c),
        rows_fit(b, w, 0),
    ensures
        rows_fit(a + seq!['\n'] + b, w, c),
    decreases a.len(),
{
    if a.len() == 0 {
        assert((a + seq!['\n'] + b).drop_first() =~= b);
    } else {
        let c2 = if a[0] == '\n' {
            0
        } else {
            c + 1
        };
        lemma_rows_fit_concat(a.drop_first(), b, w, c2);
        assert((a + seq!['\n'] + b).drop_first() =~= a.drop_first() + seq!['\n'] + b);
    }
}

proof fn lemma_join_fits(parts: Seq<Seq<char>>, w: int)
    requires
        forall|i: int| 0 <= i < parts.len() ==> rows_fit(#[trigger] parts[i], w, 0),
    ensures
        rows_fit(join_with(parts, seq!['\n']), w, 0),
    decreases parts.len(),
{
    if parts.len() > 1 {
        lemma_join_fits(parts.drop_last(), w);
        lemma_rows_fit_concat(join_with(parts.drop_last(), seq!['\n']), parts.last(), w, 0);
    }
}

proof fn lemma_std_lines_no_newline(s: Seq<char>)
    ensures
        forall|i: int| 0 <= i < std_lines(s).len() ==> !(#[trigger] std_lines(s)[i]).contains('\n'),
    decreases s.len(),
{
    if s.len() > 0 {
        crate::text::lemma_find_newline(s);
        let k = piece_len(s);
        lemma_std_lines_no_newline(s.skip(k));
        let piece = s.take(k);
        let line = std_line(piece);
        assert(!line.contains('\n')) by {
            if line.contains('\n') {
                let j = choose|j: int| 0 <= j < line.len() && line[j] == '\n';
                assert(line[j] == s[j]);
            }
        }
        assert forall|i: int| 0 <= i < std_lines(s).len() implies !(
        #[trigger] std_lines(s)[i]).contains('\n') by {
            if i > 0 {
                assert(std_lines(s)[i] == std_lines(s.skip(k))[i - 1]);
            }
        }
    }
}

/// Soft wrapping at `w` columns leaves no display row longer than
/// `max(w, 1)` characters.
pub proof fn law_soft_wrap_rows_fit(text: Seq<char>, w: int)
    ensures
        rows_fit(soft_wrap_spec(text, w), max_int(w, 1), 0),
{
    let w1 = max_int(w, 1);
    let ls = std_lines(text);
    lemma_std_lines_no_newline(text);
    let parts = ls.map_values(|l: Seq<char>| wrap_from(l, w1, 0));
    assert forall|i: int| 0 <= i < parts.len() implies rows_fit(#[trigger] parts[i], w1, 0) by {
        lemma_wrap_from_fits(ls[i], w1, 0);
    }
    lemma_join_fits(parts, w1);
    let joined = join_with(parts, seq!['\n']);
    if text.len() > 0 && text.last() == '\n' {
        lemma_rows_fit_concat(joined, Seq::empty(), w1, 0);
        assert(joined + seq!['\n'] + Seq::<char>::empty() =~= soft_wrap_spec(text, w));
    } else {
        assert(joined + Seq::<char>::empty() =~= soft_wrap_spec(text, w));
    }
}

/// Each character offset goes to a byte offset that falls between
/// characters, and that byte offset goes back to the same character offset
/// and no other.
pub proof fn law_offset_round_trip(t: Seq<char>, k: int)
    requires
        0 <= k <= t.len(),
    ensures
        on_char_boundary(t, utf8_len(t.take(k)) as int),
        forall|j: int|
            0 <= j <= t.len() && utf8_len(#[trigger] t.take(j)) == utf8_len(t.take(k)) ==> j == k,
{
    crate::text::lemma_utf8_len_prefix(t, k);
    assert(t.take(t.len() as int) =~= t);
    assert(utf8_len(t.take(k)) == min_int(utf8_len(t.take(k)) as int, utf8_len(t) as int));
    assert forall|j: int|
        0 <= j <= t.len() && utf8_len(#[trigger] t.take(j)) == utf8_len(t.take(k)) implies j == k by {
        if j < k {
            lemma_utf8_len_increasing(t, j, k);
        } else if j > k {
            lemma_utf8_len_increasing(t, k, j);
        }
    }
}

proof fn lemma_search_reaches(t: Seq<char>, row: int, col: int, w: int, line: int)
    requires
        w >= 1,
        0 <= line < line_count_of(t),
        rows_before(t, line, w) <= row,
    ensures
        visual_search(t, row, col, w, 0, 0) == visual_search(t, row, col, w, line, rows_before(
            t,
            line,
            w,
        )),
    decreases line,
{
    if line > 0 {
        lemma_rows_before_monotone(t, line - 1, line, w);
        lemma_search_reaches(t, row, col, w, line - 1);
    }
}

proof fn lemma_row_within_line(ch: int, vis: int, w: int)
    requires
        w >= 1,
        0 <= ch <= vis,
        ch < vis || vis % w != 0 || vis == 0,
    ensures
        ch / w < rows_for(vis, w),
        (ch / w) * w + ch % w == ch,
        0 <= ch % w < w,
{
    assert((ch / w) * w + ch % w == ch && 0 <= ch % w < w) by (nonlinear_arith)
        requires
            w >= 1,
            ch >= 0,
    ;
    if vis > 0 {
        if ch < vis {
            assert(ch / w <= (vis - 1) / w) by (nonlinear_arith)
                requires
                    w >= 1,
                    0 <= ch <= vis - 1,
            ;
            assert((vis - 1) / w < ceil_div(vis, w)) by (nonlinear_arith)
                requires
                    w >= 1,
                    vis >= 1,
            ;
        } else {
            assert(ch / w < ceil_div(vis, w));
        }
    }
}

/// A text position within its line goes to a visual row and column and back
/// unchanged, unless it sits at the end of a line whose last row is full
/// (that visual position is the start of the next row).
pub proof fn law_visual_round_trip(t: Seq<char>, p: TextPosition, w: int)
    requires
        w >= 1,
        p.line < line_count_of(t),
        p.character <= visible_len(t, p.line as int),
        p.character < visible_len(t, p.line as int) || (visible_len(t, p.line as int) as int) % w != 0
            || visible_len(t, p.line as int) == 0,
    ensures
        ({
            let (row, col) = text_to_visual_spec(t, p, w);
            visual_to_text_spec(t, row, col, w) == p
        }),
{
    let line = p.line as int;
    let ch = p.character as int;
    let vis = visible_len(t, line) as int;
    let (row, col) = text_to_visual_spec(t, p, w);
    assert(row == rows_before(t, line, w) + ch / w);
    assert(col == ch % w);
    lemma_row_within_line(ch, vis, w);
    lemma_search_reaches(t, row, col, w, line);
}

} // verus!
