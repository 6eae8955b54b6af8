//! The editable document: its text (a rope), selection, dirty flag, version
//! and undo/redo history, and the editor commands that act on it.
//!
//! Every command is specified by `apply_spec`, a transition function on the
//! document's model (`DocumentView`).
use crate::rope::{
    is_line_break, lemma_breaks_monotone, lemma_char_line, lemma_last_line_start,
    lemma_line_start, lemma_next_line_start, next_line_start, starts_line_at,
    breaks_upto, line_chars, line_count_of, line_start, rope_chars, rope_clone, rope_from_str,
    rope_insert, rope_len_chars, rope_len_lines, rope_line, rope_line_to_char, rope_char_to_line,
    rope_remove, rope_slice, rope_to_string,
};
use crate::display::{byte_to_char_idx, on_char_boundary};
use crate::text::{
    char_index_of_byte, char_vec, lemma_char_index_of_byte, lemma_trim_line_end,
    line_end_trimmed_len, trim_line_end, utf8_len,
};
use ropey::Rope;
use std::collections::hash_map::RandomState;
use std::ops::Range;
use std::path::PathBuf;
use vstd::prelude::*;

verus! {

#[verifier::external_type_specification]
#[verifier::external_body]
pub struct ExPathBuf(PathBuf);

#[derive(Clone, Copy, Debug, PartialEq, Eq, Hash, Structural)]
pub struct DocumentId(pub u64);

/// `RandomState::new`: hasher keys that differ on each call within a process.
#[verifier::external_body]
fn new_random_state() -> RandomState {
    RandomState::new()
}

/// `BuildHasher::hash_one` of the unit value under the given keys.
#[verifier::external_body]
fn hash_unit(state: &RandomState) -> u64 {
    std::hash::BuildHasher::hash_one(state, ())
}

impl DocumentId {
    /// A new identifier: the hash of the unit value under freshly drawn
    /// hasher keys. The keys differ on each call, so two identifiers of one
    /// process are equal only where two such hashes collide.
    pub fn fresh() -> Self {
        let state = new_random_state();
        DocumentId(hash_unit(&state))
    }
}

#[derive(Clone, Copy, Debug, Default, PartialEq, Eq, PartialOrd, Ord, Hash, Structural)]
pub struct DocVersion(pub u64);

impl DocVersion {
    /// The version after this one.
    pub fn next(self) -> (r: Self)
        requires
            self.0 < u64::MAX,
        ensures
            r.0 == self.0 + 1,
    {
        DocVersion(self.0 + 1)
    }
}

#[derive(Clone, Copy, Debug, PartialEq, Eq, Structural)]
pub enum NewlineStyle {
    Lf,
    Crlf,
}

/// The text holds a CR directly followed by an LF.
pub open spec fn has_crlf(s: Seq<char>) -> bool {
    exists|i: int| 0 <= i && i + 1 < s.len() && #[trigger] s[i] == '\r' && s[i + 1] == '\n'
}

pub open spec fn detect_spec(s: Seq<char>) -> NewlineStyle {
    if has_crlf(s) {
        NewlineStyle::Crlf
    } else {
        NewlineStyle::Lf
    }
}

impl NewlineStyle {
    /// CRLF when the text holds a CRLF pair anywhere, LF otherwise.
    pub fn detect(text: &str) -> (r: Self)
        ensures
            r == detect_spec(text@),
    {
        let v = char_vec(text);
        let mut i: usize = 0;
        while i < v.len() && i + 1 < v.len()
            invariant
                v@ == text@,
                forall|j: int| 0 <= j < i && j + 1 < v.len() ==> !(#[trigger] v@[j] == '\r' && v@[j
                    + 1] == '\n'),
            decreases v.len() - i,
        {
            if v[i] == '\r' && v[i + 1] == '\n' {
                return NewlineStyle::Crlf;
            }
            i += 1;
        }
        NewlineStyle::Lf
    }

    /// The line break that the style writes.
    pub fn as_str(self) -> (s: &'static str)
        ensures
            self == NewlineStyle::Lf ==> s@ == seq!['\n'],
            self == NewlineStyle::Crlf ==> s@ == seq!['\r', '\n'],
    {
        match self {
            NewlineStyle::Lf => {
                let s = "\n";
                proof {
                    reveal_strlit("\n");
                }
                s
            },
            NewlineStyle::Crlf => {
                let s = "\r\n";
                proof {
                    reveal_strlit("\r\n");
                }
                s
            },
        }
    }
}

#[derive(Clone, Copy, Debug, Default, PartialEq, Eq, Structural)]
pub struct TextPosition {
    pub line: usize,
    pub character: usize,
}

#[derive(Clone, Copy, Debug, Default, PartialEq, Eq, Structural)]
pub struct Selection {
    pub anchor: usize,
    pub head: usize,
}

pub open spec fn caret_spec(p: int) -> Selection {
    Selection { anchor: p as usize, head: p as usize }
}

pub open spec fn sel_start(s: Selection) -> int {
    if s.anchor <= s.head {
        s.anchor as int
    } else {
        s.head as int
    }
}

pub open spec fn sel_end(s: Selection) -> int {
    if s.anchor <= s.head {
        s.head as int
    } else {
        s.anchor as int
    }
}

impl Selection {
    /// A collapsed selection at `position`.
    pub fn caret(position: usize) -> (s: Self)
        ensures
            s == caret_spec(position as int),
    {
        Selection { anchor: position, head: position }
    }

    pub fn is_caret(self) -> (b: bool)
        ensures
            b == (self.anchor == self.head),
    {
        self.anchor == self.head
    }

    /// The selected range, from its lower end to its upper end.
    pub fn normalized(self) -> (r: Range<usize>)
        ensures
            r.start == sel_start(self),
            r.end == sel_end(self),
    {
        if self.anchor <= self.head {
            self.anchor..self.head
        } else {
            self.head..self.anchor
        }
    }

    /// The moving end of the selection.
    pub fn cursor(self) -> (c: usize)
        ensures
            c == self.head,
    {
        self.head
    }
}

#[derive(Clone, Debug, PartialEq, Eq, Structural)]
pub enum CursorMove {
    Left,
    Right,
    Up,
    Down,
    LineStart,
    LineEnd,
    DocumentStart,
    DocumentEnd,
    ToPosition(TextPosition),
}

#[derive(Clone, Debug, PartialEq, Eq)]
pub enum EditorCommand {
    InsertText(String),
    DeleteBackward,
    DeleteSelection,
    MoveCursor(CursorMove),
    ExtendSelection(CursorMove),
    SetSelection(Selection),
    SelectAll,
    Undo,
    Redo,
    Save,
    SaveAs(PathBuf),
    Copy,
    Cut,
    Paste(String),
}

#[derive(Clone, Debug, PartialEq, Eq)]
pub enum CommandOutcome {
    Changed,
    Unchanged,
    SaveRequested,
    SaveAsRequested(PathBuf),
}

#[derive(Clone, Copy, Debug, PartialEq, Eq, Structural)]
pub enum DocumentError {
    SelectionOutOfBounds { index: usize, len: usize },
}

/// A snapshot that undo or redo returns to.
pub struct FrameView {
    pub text: Seq<char>,
    pub selection: Selection,
    pub dirty: bool,
}

/// The model of a document: what the editor commands read and change.
pub struct DocumentView {
    pub id: DocumentId,
    pub path: Option<PathBuf>,
    pub newline: NewlineStyle,
    pub text: Seq<char>,
    pub selection: Selection,
    pub dirty: bool,
    pub version: DocVersion,
    pub undo: Seq<FrameView>,
    pub redo: Seq<FrameView>,
}

struct HistoryFrame {
    rope: Rope,
    selection: Selection,
    dirty: bool,
}

impl HistoryFrame {
    closed spec fn model(&self) -> FrameView {
        FrameView { text: rope_chars(self.rope), selection: self.selection, dirty: self.dirty }
    }

    fn duplicate(&self) -> (f: HistoryFrame)
        ensures
            f.model() == self.model(),
    {
        HistoryFrame { rope: rope_clone(&self.rope), selection: self.selection, dirty: self.dirty }
    }
}

closed spec fn frames_model(v: Seq<HistoryFrame>) -> Seq<FrameView> {
    v.map_values(|f: HistoryFrame| f.model())
}

fn duplicate_frames(v: &Vec<HistoryFrame>) -> (r: Vec<HistoryFrame>)
    ensures
        frames_model(r@) == frames_model(v@),
{
    let mut r: Vec<HistoryFrame> = Vec::new();
    let mut i: usize = 0;
    while i < v.len()
        invariant
            i <= v.len(),
            frames_model(r@) == frames_model(v@.take(i as int)),
        decreases v.len() - i,
    {
        let f = v[i].duplicate();
        proof {
            assert(v@.take(i + 1) == v@.take(i as int).push(v@[i as int]));
            assert(frames_model(r@.push(f)) =~= frames_model(r@).push(f.model()));
            assert(frames_model(v@.take(i + 1)) =~= frames_model(v@.take(i as int)).push(
                v@[i as int].model(),
            ));
        }
        r.push(f);
        i += 1;
    }
    assert(v@.take(v.len() as int) == v@);
    r
}

pub struct DocumentState {
    pub id: DocumentId,
    pub path: Option<PathBuf>,
    rope: Rope,
    pub version: DocVersion,
    pub dirty: bool,
    pub newline: NewlineStyle,
    pub selection: Selection,
    undo_stack: Vec<HistoryFrame>,
    redo_stack: Vec<HistoryFrame>,
}


/// `PathBuf::clone`: the same path.
pub assume_specification[ <PathBuf as Clone>::clone ](p: &PathBuf) -> (c: PathBuf)
    ensures
        c == *p,
;

impl Clone for DocumentState {
    /// A copy of the document with the same model.
    fn clone(&self) -> (c: Self)
        ensures
            c@ == self@,
    {
        let path = match &self.path {
            Some(p) => Some(p.clone()),
            None => None,
        };
        DocumentState {
            id: self.id,
            path,
            rope: rope_clone(&self.rope),
            version: self.version,
            dirty: self.dirty,
            newline: self.newline,
            selection: self.selection,
            undo_stack: duplicate_frames(&self.undo_stack),
            redo_stack: duplicate_frames(&self.redo_stack),
        }
    }
}

impl View for DocumentState {
    type V = DocumentView;

    closed spec fn view(&self) -> DocumentView {
        DocumentView {
            id: self.id,
            path: self.path,
            newline: self.newline,
            text: rope_chars(self.rope),
            selection: self.selection,
            dirty: self.dirty,
            version: self.version,
            undo: frames_model(self.undo_stack@),
            redo: frames_model(self.redo_stack@),
        }
    }
}

// ----------------------------------------------------------------------------
// The model of lines and positions.

/// The number of characters of line `l` that are not line-break characters
/// at its end (0 for a line past the end).
pub open spec fn visible_len(t: Seq<char>, l: int) -> nat {
    if 0 <= l < line_count_of(t) {
        trim_line_end(line_chars(t, l as nat)).len()
    } else {
        0
    }
}

pub open spec fn min_int(a: int, b: int) -> int {
    if a <= b {
        a
    } else {
        b
    }
}

/// The line and the offset in it of position `c` (clamped to the text).
pub open spec fn char_to_position_spec(t: Seq<char>, c: int) -> TextPosition {
    let b = min_int(c, t.len() as int);
    let l = breaks_upto(t, b);
    TextPosition { line: l as usize, character: (b - line_start(t, l)) as usize }
}

/// The position of a line and offset, each clamped: the line to the last
/// line, the offset to the visible length of the line.
pub open spec fn position_to_char_spec(t: Seq<char>, p: TextPosition) -> int {
    let l = min_int(p.line as int, line_count_of(t) - 1);
    line_start(t, l as nat) + min_int(p.character as int, visible_len(t, l) as int)
}

/// Where a cursor at `head` goes under a movement.
pub open spec fn move_target(t: Seq<char>, head: int, movement: CursorMove) -> int {
    let pos = char_to_position_spec(t, head);
    match movement {
        CursorMove::Left => if head == 0 {
            0
        } else {
            head - 1
        },
        CursorMove::Right => min_int(head + 1, t.len() as int),
        CursorMove::Up => if pos.line == 0 {
            0
        } else {
            position_to_char_spec(
                t,
                TextPosition { line: (pos.line - 1) as usize, character: pos.character },
            )
        },
        CursorMove::Down => if pos.line + 1 >= line_count_of(t) {
            t.len() as int
        } else {
            position_to_char_spec(
                t,
                TextPosition { line: (pos.line + 1) as usize, character: pos.character },
            )
        },
        CursorMove::LineStart => position_to_char_spec(
            t,
            TextPosition { line: pos.line, character: 0 },
        ),
        CursorMove::LineEnd => position_to_char_spec(
            t,
            TextPosition {
                line: pos.line,
                character: visible_len(t, pos.line as int) as usize,
            },
        ),
        CursorMove::DocumentStart => 0,
        CursorMove::DocumentEnd => t.len() as int,
        CursorMove::ToPosition(p) => position_to_char_spec(t, p),
    }
}

// ----------------------------------------------------------------------------
// The transition function of the editor commands.

/// The error for a selection end past the end of the text (the anchor is
/// checked first).
pub open spec fn selection_error(len: nat, s: Selection) -> Option<DocumentError> {
    if s.anchor > len {
        Some(DocumentError::SelectionOutOfBounds { index: s.anchor, len: len as usize })
    } else if s.head > len {
        Some(DocumentError::SelectionOutOfBounds { index: s.head, len: len as usize })
    } else {
        None
    }
}

/// The current state goes onto the undo stack; the redo stack empties.
pub open spec fn push_undo_spec(m: DocumentView) -> DocumentView {
    DocumentView {
        undo: m.undo.push(FrameView { text: m.text, selection: m.selection, dirty: m.dirty }),
        redo: Seq::empty(),
        ..m
    }
}

/// The document is marked dirty and its version goes up by one.
pub open spec fn mark_changed_spec(m: DocumentView) -> DocumentView {
    DocumentView { dirty: true, version: DocVersion((m.version.0 + 1) as u64), ..m }
}

/// Characters `start..end` are replaced with `ins`.
pub open spec fn splice(t: Seq<char>, start: int, end: int, ins: Seq<char>) -> Seq<char> {
    t.take(start) + ins + t.skip(end)
}

/// The selected text is replaced with `ins`; the caret goes after it.
pub open spec fn replace_selection_spec(m: DocumentView, ins: Seq<char>) -> DocumentView {
    let start = sel_start(m.selection);
    let end = sel_end(m.selection);
    DocumentView {
        text: splice(m.text, start, end, ins),
        selection: caret_spec(start + ins.len()),
        ..m
    }
}

pub open spec fn insert_text_spec(m: DocumentView, t: Seq<char>) -> (
    DocumentView,
    Result<CommandOutcome, DocumentError>,
) {
    if t.len() == 0 {
        (m, Ok(CommandOutcome::Unchanged))
    } else {
        match selection_error(m.text.len(), m.selection) {
            Some(e) => (m, Err(e)),
            None => (
                mark_changed_spec(replace_selection_spec(push_undo_spec(m), t)),
                Ok(CommandOutcome::Changed),
            ),
        }
    }
}

pub open spec fn delete_selection_spec(m: DocumentView) -> (
    DocumentView,
    Result<CommandOutcome, DocumentError>,
) {
    match selection_error(m.text.len(), m.selection) {
        Some(e) => (m, Err(e)),
        None => if m.selection.anchor == m.selection.head {
            (m, Ok(CommandOutcome::Unchanged))
        } else {
            (
                mark_changed_spec(replace_selection_spec(push_undo_spec(m), Seq::empty())),
                Ok(CommandOutcome::Changed),
            )
        },
    }
}

pub open spec fn delete_backward_spec(m: DocumentView) -> (
    DocumentView,
    Result<CommandOutcome, DocumentError>,
) {
    match selection_error(m.text.len(), m.selection) {
        Some(e) => (m, Err(e)),
        None => if m.selection.anchor != m.selection.head {
            delete_selection_spec(m)
        } else if m.selection.head == 0 {
            (m, Ok(CommandOutcome::Unchanged))
        } else {
            let c = m.selection.head as int;
            let p = push_undo_spec(m);
            (
                mark_changed_spec(
                    DocumentView {
                        text: splice(p.text, c - 1, c, Seq::empty()),
                        selection: caret_spec(c - 1),
                        ..p
                    },
                ),
                Ok(CommandOutcome::Changed),
            )
        },
    }
}

/// Undo and redo: the top of `from` becomes the state, the state goes onto `to`.
pub open spec fn undo_spec(m: DocumentView) -> (DocumentView, Result<CommandOutcome, DocumentError>) {
    if m.undo.len() == 0 {
        (m, Ok(CommandOutcome::Unchanged))
    } else {
        let f = m.undo.last();
        (
            DocumentView {
                text: f.text,
                selection: f.selection,
                dirty: f.dirty,
                version: DocVersion((m.version.0 + 1) as u64),
                undo: m.undo.drop_last(),
                redo: m.redo.push(FrameView { text: m.text, selection: m.selection, dirty: m.dirty }),
                ..m
            },
            Ok(CommandOutcome::Changed),
        )
    }
}

pub open spec fn redo_spec(m: DocumentView) -> (DocumentView, Result<CommandOutcome, DocumentError>) {
    if m.redo.len() == 0 {
        (m, Ok(CommandOutcome::Unchanged))
    } else {
        let f = m.redo.last();
        (
            DocumentView {
                text: f.text,
                selection: f.selection,
                dirty: f.dirty,
                version: DocVersion((m.version.0 + 1) as u64),
                undo: m.undo.push(FrameView { text: m.text, selection: m.selection, dirty: m.dirty }),
                redo: m.redo.drop_last(),
                ..m
            },
            Ok(CommandOutcome::Changed),
        )
    }
}

pub open spec fn cut_spec(m: DocumentView) -> (DocumentView, Result<CommandOutcome, DocumentError>) {
    if sel_start(m.selection) == sel_end(m.selection) {
        (m, Ok(CommandOutcome::Unchanged))
    } else {
        (
            mark_changed_spec(replace_selection_spec(push_undo_spec(m), Seq::empty())),
            Ok(CommandOutcome::Changed),
        )
    }
}

/// What `DocumentState::apply` does with a command: the new model and the result.
pub open spec fn apply_spec(m: DocumentView, command: EditorCommand) -> (
    DocumentView,
    Result<CommandOutcome, DocumentError>,
) {
    match command {
        EditorCommand::InsertText(t) => insert_text_spec(m, t@),
        EditorCommand::Paste(t) => insert_text_spec(m, t@),
        EditorCommand::DeleteBackward => delete_backward_spec(m),
        EditorCommand::DeleteSelection => delete_selection_spec(m),
        EditorCommand::MoveCursor(mv) => (
            DocumentView {
                selection: caret_spec(move_target(m.text, m.selection.head as int, mv)),
                ..m
            },
            Ok(CommandOutcome::Unchanged),
        ),
        EditorCommand::ExtendSelection(mv) => (
            DocumentView {
                selection: Selection {
                    head: move_target(m.text, m.selection.head as int, mv) as usize,
                    ..m.selection
                },
                ..m
            },
            Ok(CommandOutcome::Unchanged),
        ),
        EditorCommand::SetSelection(s) => match selection_error(m.text.len(), s) {
            Some(e) => (m, Err(e)),
            None => (DocumentView { selection: s, ..m }, Ok(CommandOutcome::Unchanged)),
        },
        EditorCommand::SelectAll => (
            DocumentView {
                selection: Selection { anchor: 0, head: m.text.len() as usize },
                ..m
            },
            Ok(CommandOutcome::Unchanged),
        ),
        EditorCommand::Undo => undo_spec(m),
        EditorCommand::Redo => redo_spec(m),
        EditorCommand::Save => (m, Ok(CommandOutcome::SaveRequested)),
        EditorCommand::SaveAs(p) => (m, Ok(CommandOutcome::SaveAsRequested(p))),
        EditorCommand::Copy => (m, Ok(CommandOutcome::Unchanged)),
        EditorCommand::Cut => cut_spec(m),
    }
}

/// The inputs on which a command runs to its end: a change never takes the
/// version past `u64::MAX`, a cursor moving right is not at `usize::MAX`, and
/// a cut selection lies inside the text.
pub open spec fn apply_defined(m: DocumentView, command: EditorCommand) -> bool {
    &&& apply_spec(m, command).1 == Ok::<CommandOutcome, DocumentError>(CommandOutcome::Changed)
        ==> m.version.0 < u64::MAX
    &&& command == EditorCommand::MoveCursor(CursorMove::Right) ==> m.selection.head < usize::MAX
    &&& command == EditorCommand::ExtendSelection(CursorMove::Right) ==> m.selection.head
        < usize::MAX
    &&& command == EditorCommand::Cut ==> sel_end(m.selection) <= m.text.len()
}

/// The characters in `start..end` (character indices), each end clamped to
/// the text; empty when the clamped range is empty.
pub open spec fn text_range_spec(t: Seq<char>, start: int, end: int) -> Seq<char> {
    let s = min_int(start, t.len() as int);
    let e = min_int(end, t.len() as int);
    if s >= e {
        Seq::empty()
    } else {
        t.subrange(s, e)
    }
}

/// What `mark_saved` does: the document is clean, and every undo snapshot
/// counts as dirty.
pub open spec fn mark_saved_spec(m: DocumentView) -> DocumentView {
    DocumentView {
        dirty: false,
        undo: m.undo.map_values(|f: FrameView| FrameView { dirty: true, ..f }),
        ..m
    }
}

pub open spec fn changes(r: Result<CommandOutcome, DocumentError>) -> bool {
    r == Ok::<CommandOutcome, DocumentError>(CommandOutcome::Changed)
}

impl DocumentState {
    /// A fresh, empty, clean document.
    pub fn empty() -> (d: Self)
        ensures
            d@.text == Seq::<char>::empty(),
            d@.selection == caret_spec(0),
            !d@.dirty,
            d@.version == DocVersion(0),
            d@.undo == Seq::<FrameView>::empty(),
            d@.redo == Seq::<FrameView>::empty(),
            d@.path is None,
            d@.newline == NewlineStyle::Lf,
    {
        let d = Self::from_text("");
        proof {
            reveal_strlit("");
        }
        d
    }

    /// A fresh, clean document that holds `text`, with the caret at its start.
    pub fn from_text(text: &str) -> (d: Self)
        ensures
            d@.text == text@,
            d@.selection == caret_spec(0),
            !d@.dirty,
            d@.version == DocVersion(0),
            d@.undo == Seq::<FrameView>::empty(),
            d@.redo == Seq::<FrameView>::empty(),
            d@.path is None,
            d@.newline == detect_spec(text@),
    {
        let newline = NewlineStyle::detect(text);
        let d = DocumentState {
            id: DocumentId::fresh(),
            path: None,
            rope: rope_from_str(text),
            version: DocVersion(0),
            dirty: false,
            newline,
            selection: Selection::caret(0),
            undo_stack: Vec::new(),
            redo_stack: Vec::new(),
        };
        assert(frames_model(d.undo_stack@) =~= Seq::<FrameView>::empty());
        assert(frames_model(d.redo_stack@) =~= Seq::<FrameView>::empty());
        d
    }

    /// `from_text`, with the document's path set.
    pub fn from_path_and_text(path: PathBuf, text: &str) -> (d: Self)
        ensures
            d@.text == text@,
            d@.selection == caret_spec(0),
            !d@.dirty,
            d@.version == DocVersion(0),
            d@.undo == Seq::<FrameView>::empty(),
            d@.redo == Seq::<FrameView>::empty(),
            d@.path == Some(path),
            d@.newline == detect_spec(text@),
    {
        let mut document = Self::from_text(text);
        document.path = Some(path);
        document
    }

    /// The moving end of the selection.
    pub fn cursor(&self) -> (c: usize)
        ensures
            c == self@.selection.head,
    {
        self.selection.head
    }

    /// The identifier.
    pub fn id(&self) -> (i: DocumentId)
        ensures
            i == self@.id,
    {
        self.id
    }

    /// The file path, where the document has one.
    pub fn path(&self) -> (p: Option<&PathBuf>)
        ensures
            match self@.path {
                Some(q) => p == Some(&q),
                None => p is None,
            },
    {
        match &self.path {
            Some(q) => Some(q),
            None => None,
        }
    }

    /// The selection.
    pub fn selection(&self) -> (s: Selection)
        ensures
            s == self@.selection,
    {
        self.selection
    }

    /// Whether the document has changes since it was opened or last saved.
    pub fn is_dirty(&self) -> (d: bool)
        ensures
            d == self@.dirty,
    {
        self.dirty
    }

    /// The version, raised by one on each change.
    pub fn version(&self) -> (v: DocVersion)
        ensures
            v == self@.version,
    {
        self.version
    }

    /// The newline style the document was opened with.
    pub fn newline(&self) -> (n: NewlineStyle)
        ensures
            n == self@.newline,
    {
        self.newline
    }

    pub fn char_count(&self) -> (n: usize)
        ensures
            n == self@.text.len(),
    {
        rope_len_chars(&self.rope)
    }

    pub fn line_count(&self) -> (n: usize)
        ensures
            n == line_count_of(self@.text),
    {
        rope_len_lines(&self.rope)
    }

    pub fn text(&self) -> (s: String)
        ensures
            s@ == self@.text,
    {
        rope_to_string(&self.rope)
    }

    /// Line `line` with its line break, or `None` past the last line.
    pub fn line_text(&self, line: usize) -> (r: Option<String>)
        ensures
            r is Some <==> line < line_count_of(self@.text),
            r matches Some(s) ==> s@ == line_chars(self@.text, line as nat),
    {
        if line < rope_len_lines(&self.rope) {
            Some(rope_line(&self.rope, line))
        } else {
            None
        }
    }

    /// The length of line `line` without its trailing CR and LF characters.
    pub fn line_visible_char_count(&self, line: usize) -> (n: usize)
        ensures
            n == visible_len(self@.text, line as int),
    {
        if line >= rope_len_lines(&self.rope) {
            return 0;
        }
        let s = rope_line(&self.rope, line);
        let v = char_vec(s.as_str());
        line_end_trimmed_len(&v)
    }

    /// The text in the given byte range, each end clamped to the text's
    /// length in bytes; empty when the clamped range is empty. Each end falls
    /// between characters.
    pub fn text_range(&self, range: Range<usize>) -> (s: String)
        requires
            utf8_len(self@.text) <= usize::MAX,
            on_char_boundary(self@.text, range.start as int),
            on_char_boundary(self@.text, range.end as int),
        ensures
            s@ == text_range_spec(
                self@.text,
                char_index_of_byte(self@.text, range.start as int),
                char_index_of_byte(self@.text, range.end as int),
            ),
    {
        let text = rope_to_string(&self.rope);
        let start = byte_to_char_idx(text.as_str(), range.start);
        let end = byte_to_char_idx(text.as_str(), range.end);
        proof {
            lemma_char_index_of_byte(self@.text, range.start as int, start as int);
            lemma_char_index_of_byte(self@.text, range.end as int, end as int);
        }
        self.char_range(start, end)
    }

    /// The text in the character range `start..end`, each end clamped to the
    /// text.
    fn char_range(&self, start: usize, end: usize) -> (s: String)
        ensures
            s@ == text_range_spec(self@.text, start as int, end as int),
    {
        let len = self.char_count();
        let start = if start < len {
            start
        } else {
            len
        };
        let end = if end < len {
            end
        } else {
            len
        };
        if start >= end {
            return String::new();
        }
        rope_slice(&self.rope, start, end)
    }

    /// The selected text, or `None` when the selection is a caret.
    pub fn selected_text(&self) -> (r: Option<String>)
        ensures
            sel_start(self@.selection) == sel_end(self@.selection) ==> r is None,
            sel_start(self@.selection) < sel_end(self@.selection) ==> (r matches Some(s) && s@
                == text_range_spec(self@.text, sel_start(self@.selection), sel_end(self@.selection))),
    {
        let range = self.selection.normalized();
        if range.start >= range.end {
            return None;
        }
        Some(self.char_range(range.start, range.end))
    }

    pub fn set_path(&mut self, path: PathBuf)
        ensures
            final(self)@ == (DocumentView { path: Some(path), ..old(self)@ }),
    {
        self.path = Some(path);
    }

    /// The document is clean; every undo snapshot now counts as dirty, so
    /// that undoing past the save leaves the document dirty.
    pub fn mark_saved(&mut self)
        ensures
            final(self)@ == mark_saved_spec(old(self)@),
    {
        self.dirty = false;
        let ghost old_stack = self.undo_stack@;
        let mut i: usize = 0;
        while i < self.undo_stack.len()
            invariant
                i <= self.undo_stack.len(),
                self.undo_stack@.len() == old_stack.len(),
                old_stack == old(self).undo_stack@,
                !self.dirty,
                self.id == old(self).id,
                self.path == old(self).path,
                self.newline == old(self).newline,
                self.rope == old(self).rope,
                self.version == old(self).version,
                self.selection == old(self).selection,
                self.redo_stack == old(self).redo_stack,
                forall|j: int|
                    0 <= j < i ==> (#[trigger] self.undo_stack@[j]).model() == (FrameView {
                        dirty: true,
                        ..old_stack[j].model()
                    }),
                forall|j: int| i <= j < old_stack.len() ==> #[trigger] self.undo_stack@[j] == old_stack[j],
            decreases old_stack.len() - i,
        {
            self.undo_stack[i].dirty = true;
            i += 1;
        }
        assert(frames_model(self.undo_stack@) =~= frames_model(old_stack).map_values(
            |f: FrameView| FrameView { dirty: true, ..f },
        ));
    }

    pub fn mark_saved_as(&mut self, path: PathBuf)
        ensures
            final(self)@ == mark_saved_spec(DocumentView { path: Some(path), ..old(self)@ }),
    {
        self.path = Some(path);
        self.mark_saved();
    }
}

/// A line's visible part ends within the line.
pub proof fn lemma_visible_len_bound(t: Seq<char>, l: int)
    requires
        0 <= l < line_count_of(t),
    ensures
        line_start(t, l as nat) + visible_len(t, l) <= line_start(t, (l + 1) as nat),
        line_start(t, (l + 1) as nat) <= t.len(),
        0 <= line_start(t, l as nat),
{
    lemma_line_start(t, l as nat);
    lemma_trim_line_end(line_chars(t, l as nat));
}

impl DocumentState {
    /// The line and the offset in it of `char_idx`, clamped to the text.
    pub fn char_to_position(&self, char_idx: usize) -> (p: TextPosition)
        ensures
            p == char_to_position_spec(self@.text, char_idx as int),
    {
        let len = self.char_count();
        let bounded = if char_idx < len {
            char_idx
        } else {
            len
        };
        proof {
            lemma_char_line(self@.text, bounded as int);
        }
        let line = rope_char_to_line(&self.rope, bounded);
        let line_start = rope_line_to_char(&self.rope, line);
        TextPosition { line, character: bounded.saturating_sub(line_start) }
    }

    /// The character index of a line and offset: the line is clamped to the
    /// last line, the offset to the line's visible length.
    pub fn position_to_char(&self, position: TextPosition) -> (c: usize)
        ensures
            c == position_to_char_spec(self@.text, position),
    {
        let len = self.char_count();
        let last = rope_len_lines(&self.rope).saturating_sub(1);
        let line = if position.line < last {
            position.line
        } else {
            last
        };
        proof {
            lemma_visible_len_bound(self@.text, line as int);
        }
        let line_start = rope_line_to_char(&self.rope, line);
        let line_len = self.line_visible_char_count(line);
        let character = if position.character < line_len {
            position.character
        } else {
            line_len
        };
        line_start + character
    }

    fn validate_selection(&self) -> (r: Result<(), DocumentError>)
        ensures
            r == (match selection_error(self@.text.len(), self@.selection) {
                Some(e) => Err(e),
                None => Ok(()),
            }),
    {
        let len = self.char_count();
        if self.selection.anchor > len {
            return Err(DocumentError::SelectionOutOfBounds { index: self.selection.anchor, len });
        }
        if self.selection.head > len {
            return Err(DocumentError::SelectionOutOfBounds { index: self.selection.head, len });
        }
        Ok(())
    }

    /// Sets the selection, when both of its ends lie within the text.
    pub fn set_selection(&mut self, selection: Selection) -> (r: Result<(), DocumentError>)
        ensures
            r == (match selection_error(old(self)@.text.len(), selection) {
                Some(e) => Err(e),
                None => Ok(()),
            }),
            r is Ok ==> final(self)@ == (DocumentView { selection, ..old(self)@ }),
            r is Err ==> final(self)@ == old(self)@,
    {
        let len = self.char_count();
        if selection.anchor > len {
            return Err(DocumentError::SelectionOutOfBounds { index: selection.anchor, len });
        }
        if selection.head > len {
            return Err(DocumentError::SelectionOutOfBounds { index: selection.head, len });
        }
        self.selection = selection;
        Ok(())
    }

    fn push_undo(&mut self)
        ensures
            final(self)@ == push_undo_spec(old(self)@),
    {
        let frame = HistoryFrame {
            rope: rope_clone(&self.rope),
            selection: self.selection,
            dirty: self.dirty,
        };
        proof {
            assert(frames_model(self.undo_stack@.push(frame)) =~= frames_model(
                self.undo_stack@,
            ).push(frame.model()));
        }
        self.undo_stack.push(frame);
        self.redo_stack.clear();
        assert(frames_model(self.redo_stack@) =~= Seq::<FrameView>::empty());
    }

    fn mark_changed(&mut self)
        requires
            old(self).version.0 < u64::MAX,
        ensures
            final(self)@ == mark_changed_spec(old(self)@),
    {
        self.dirty = true;
        self.version = self.version.next();
    }

    /// Removes the selected text; returns where it started.
    fn delete_selection_inner(&mut self) -> (start: usize)
        requires
            sel_end(old(self)@.selection) <= old(self)@.text.len(),
        ensures
            start == sel_start(old(self)@.selection),
            final(self)@ == (DocumentView {
                text: splice(
                    old(self)@.text,
                    sel_start(old(self)@.selection),
                    sel_end(old(self)@.selection),
                    Seq::empty(),
                ),
                ..old(self)@
            }),
    {
        let range = self.selection.normalized();
        if range.start < range.end {
            rope_remove(&mut self.rope, range.start, range.end);
        } else {
            assert(splice(
                self@.text,
                range.start as int,
                range.end as int,
                Seq::empty(),
            ) =~= self@.text);
        }
        range.start
    }

    fn insert_text(&mut self, text: &str) -> (r: Result<CommandOutcome, DocumentError>)
        requires
            changes(insert_text_spec(old(self)@, text@).1) ==> old(self).version.0 < u64::MAX,
        ensures
            (final(self)@, r) == insert_text_spec(old(self)@, text@),
    {
        if text.is_empty() {
            return Ok(CommandOutcome::Unchanged);
        }
        match self.validate_selection() {
            Err(e) => return Err(e),
            Ok(()) => {},
        }
        self.push_undo();
        let ghost before = self@.text;
        let insert_at = self.delete_selection_inner();
        let ghost removed = self@.text;
        rope_insert(&mut self.rope, insert_at, text);
        proof {
            let e = sel_end(old(self)@.selection);
            assert(removed.take(insert_at as int) =~= before.take(insert_at as int));
            assert(removed.skip(insert_at as int) =~= before.skip(e));
            assert(self@.text =~= splice(before, insert_at as int, e, text@));
        }
        let inserted = text.unicode_len();
        let new_len = rope_len_chars(&self.rope);
        assert(insert_at + inserted <= new_len);
        let cursor = insert_at + inserted;
        self.selection = Selection::caret(cursor);
        self.mark_changed();
        Ok(CommandOutcome::Changed)
    }

    fn delete_selection(&mut self) -> (r: Result<CommandOutcome, DocumentError>)
        requires
            changes(delete_selection_spec(old(self)@).1) ==> old(self).version.0 < u64::MAX,
        ensures
            (final(self)@, r) == delete_selection_spec(old(self)@),
    {
        match self.validate_selection() {
            Err(e) => return Err(e),
            Ok(()) => {},
        }
        if self.selection.is_caret() {
            return Ok(CommandOutcome::Unchanged);
        }
        self.push_undo();
        let cursor = self.delete_selection_inner();
        self.selection = Selection::caret(cursor);
        self.mark_changed();
        Ok(CommandOutcome::Changed)
    }

    fn delete_backward(&mut self) -> (r: Result<CommandOutcome, DocumentError>)
        requires
            changes(delete_backward_spec(old(self)@).1) ==> old(self).version.0 < u64::MAX,
        ensures
            (final(self)@, r) == delete_backward_spec(old(self)@),
    {
        match self.validate_selection() {
            Err(e) => return Err(e),
            Ok(()) => {},
        }
        if !self.selection.is_caret() {
            return self.delete_selection();
        }
        let cursor = self.selection.cursor();
        if cursor == 0 {
            return Ok(CommandOutcome::Unchanged);
        }
        self.push_undo();
        rope_remove(&mut self.rope, cursor - 1, cursor);
        self.selection = Selection::caret(cursor - 1);
        self.mark_changed();
        Ok(CommandOutcome::Changed)
    }

    /// Where the cursor at `head` goes under `movement`.
    fn movement_target(&self, head: usize, movement: CursorMove) -> (next: usize)
        requires
            movement == CursorMove::Right ==> head < usize::MAX,
        ensures
            next == move_target(self@.text, head as int, movement),
    {
        match movement {
            CursorMove::Left => head.saturating_sub(1),
            CursorMove::Right => {
                let len = self.char_count();
                if head + 1 < len {
                    head + 1
                } else {
                    len
                }
            },
            CursorMove::Up => {
                let pos = self.char_to_position(head);
                if pos.line == 0 {
                    0
                } else {
                    self.position_to_char(
                        TextPosition { line: pos.line - 1, character: pos.character },
                    )
                }
            },
            CursorMove::Down => {
                let pos = self.char_to_position(head);
                proof {
                    lemma_char_line(self@.text, min_int(head as int, self@.text.len() as int));
                }
                let count = self.line_count();
                if pos.line + 1 >= count {
                    self.char_count()
                } else {
                    self.position_to_char(
                        TextPosition { line: pos.line + 1, character: pos.character },
                    )
                }
            },
            CursorMove::LineStart => {
                let pos = self.char_to_position(head);
                self.position_to_char(TextPosition { line: pos.line, character: 0 })
            },
            CursorMove::LineEnd => {
                let pos = self.char_to_position(head);
                let width = self.line_visible_char_count(pos.line);
                self.position_to_char(TextPosition { line: pos.line, character: width })
            },
            CursorMove::DocumentStart => 0,
            CursorMove::DocumentEnd => self.char_count(),
            CursorMove::ToPosition(position) => self.position_to_char(position),
        }
    }

    /// The cursor moves; the selection collapses to it.
    fn move_cursor(&mut self, movement: CursorMove)
        requires
            movement == CursorMove::Right ==> old(self).selection.head < usize::MAX,
        ensures
            final(self)@ == (DocumentView {
                selection: caret_spec(
                    move_target(old(self)@.text, old(self)@.selection.head as int, movement),
                ),
                ..old(self)@
            }),
    {
        let cursor = self.selection.cursor();
        let next = self.movement_target(cursor, movement);
        self.selection = Selection::caret(next);
    }

    /// The head moves; the anchor stays.
    fn extend_selection(&mut self, movement: CursorMove)
        requires
            movement == CursorMove::Right ==> old(self).selection.head < usize::MAX,
        ensures
            final(self)@ == (DocumentView {
                selection: Selection {
                    head: move_target(
                        old(self)@.text,
                        old(self)@.selection.head as int,
                        movement,
                    ) as usize,
                    ..old(self)@.selection
                },
                ..old(self)@
            }),
    {
        let head = self.selection.head;
        let next = self.movement_target(head, movement);
        self.selection.head = next;
    }

    fn undo(&mut self) -> (o: CommandOutcome)
        requires
            old(self)@.undo.len() > 0 ==> old(self).version.0 < u64::MAX,
        ensures
            (final(self)@, Ok::<CommandOutcome, DocumentError>(o)) == undo_spec(old(self)@),
    {
        let ghost before = self.undo_stack@;
        match self.undo_stack.pop() {
            None => CommandOutcome::Unchanged,
            Some(frame) => {
                proof {
                    assert(frames_model(self.undo_stack@) =~= frames_model(before).drop_last());
                }
                let current = HistoryFrame {
                    rope: rope_clone(&self.rope),
                    selection: self.selection,
                    dirty: self.dirty,
                };
                proof {
                    assert(frames_model(self.redo_stack@.push(current)) =~= frames_model(
                        self.redo_stack@,
                    ).push(current.model()));
                }
                self.redo_stack.push(current);
                self.rope = frame.rope;
                self.selection = frame.selection;
                self.dirty = frame.dirty;
                self.version = self.version.next();
                CommandOutcome::Changed
            },
        }
    }

    fn redo(&mut self) -> (o: CommandOutcome)
        requires
            old(self)@.redo.len() > 0 ==> old(self).version.0 < u64::MAX,
        ensures
            (final(self)@, Ok::<CommandOutcome, DocumentError>(o)) == redo_spec(old(self)@),
    {
        let ghost before = self.redo_stack@;
        match self.redo_stack.pop() {
            None => CommandOutcome::Unchanged,
            Some(frame) => {
                proof {
                    assert(frames_model(self.redo_stack@) =~= frames_model(before).drop_last());
                }
                let current = HistoryFrame {
                    rope: rope_clone(&self.rope),
                    selection: self.selection,
                    dirty: self.dirty,
                };
                proof {
                    assert(frames_model(self.undo_stack@.push(current)) =~= frames_model(
                        self.undo_stack@,
                    ).push(current.model()));
                }
                self.undo_stack.push(current);
                self.rope = frame.rope;
                self.selection = frame.selection;
                self.dirty = frame.dirty;
                self.version = self.version.next();
                CommandOutcome::Changed
            },
        }
    }

    /// Runs an editor command: see `apply_spec` for what each one does.
    pub fn apply(&mut self, command: EditorCommand) -> (r: Result<CommandOutcome, DocumentError>)
        requires
            apply_defined(old(self)@, command),
        ensures
            (final(self)@, r) == apply_spec(old(self)@, command),
    {
        match command {
            EditorCommand::InsertText(text) => self.insert_text(text.as_str()),
            EditorCommand::DeleteBackward => self.delete_backward(),
            EditorCommand::DeleteSelection => self.delete_selection(),
            EditorCommand::MoveCursor(movement) => {
                self.move_cursor(movement);
                Ok(CommandOutcome::Unchanged)
            },
            EditorCommand::ExtendSelection(movement) => {
                self.extend_selection(movement);
                Ok(CommandOutcome::Unchanged)
            },
            EditorCommand::SetSelection(selection) => {
                match self.set_selection(selection) {
                    Err(e) => return Err(e),
                    Ok(()) => {},
                }
                Ok(CommandOutcome::Unchanged)
            },
            EditorCommand::SelectAll => {
                self.selection = Selection { anchor: 0, head: self.char_count() };
                Ok(CommandOutcome::Unchanged)
            },
            EditorCommand::Undo => Ok(self.undo()),
            EditorCommand::Redo => Ok(self.redo()),
            EditorCommand::Save => Ok(CommandOutcome::SaveRequested),
            EditorCommand::SaveAs(path) => Ok(CommandOutcome::SaveAsRequested(path)),
            EditorCommand::Copy => Ok(CommandOutcome::Unchanged),
            EditorCommand::Cut => {
                let range = self.selection.normalized();
                if range.start < range.end {
                    self.push_undo();
                    rope_remove(&mut self.rope, range.start, range.end);
                    self.selection = Selection::caret(range.start);
                    self.mark_changed();
                    Ok(CommandOutcome::Changed)
                } else {
                    Ok(CommandOutcome::Unchanged)
                }
            },
            EditorCommand::Paste(text) => self.insert_text(text.as_str()),
        }
    }
}

// ----------------------------------------------------------------------------
// Laws of the editor commands.

/// A command that edits the text (neither undo nor redo).
pub open spec fn is_edit(command: EditorCommand) -> bool {
    !(command is Undo) && !(command is Redo)
}

/// Undo right after an edit that changed the document gives back the text,
/// the selection and the dirty flag from before the edit, and the undo
/// history from before it; it reports a change and raises the version by one.
pub proof fn law_undo_reverts_edit(m: DocumentView, command: EditorCommand)
    requires
        is_edit(command),
        changes(apply_spec(m, command).1),
    ensures
        ({
            let after = apply_spec(m, command).0;
            let (back, r) = apply_spec(after, EditorCommand::Undo);
            &&& back.text == m.text
            &&& back.selection == m.selection
            &&& back.dirty == m.dirty
            &&& back.undo == m.undo
            &&& after.version.0 < u64::MAX ==> back.version.0 == after.version.0 + 1
            &&& changes(r)
        }),
{
    let after = apply_spec(m, command).0;
    assert(after.undo == m.undo.push(FrameView { text: m.text, selection: m.selection, dirty: m.dirty }));
    assert(after.undo.drop_last() =~= m.undo);
}

/// Redo right after an undo gives back the state the undo left, with both
/// histories as they were.
pub proof fn law_redo_reverts_undo(m: DocumentView)
    requires
        m.undo.len() > 0,
    ensures
        ({
            let after = apply_spec(m, EditorCommand::Undo).0;
            let (back, r) = apply_spec(after, EditorCommand::Redo);
            &&& back.text == m.text
            &&& back.selection == m.selection
            &&& back.dirty == m.dirty
            &&& back.undo == m.undo
            &&& back.redo == m.redo
            &&& changes(r)
        }),
{
    let after = apply_spec(m, EditorCommand::Undo).0;
    assert(after.redo.drop_last() =~= m.redo);
    assert(after.undo.push(FrameView { text: after.text, selection: after.selection, dirty: after.dirty }) =~= m.undo);
}

/// A command that reports `Changed` raises the version by exactly one; any
/// other result leaves the text, the dirty flag, the version and both
/// histories as they were. The identity, path and newline style never change.
pub proof fn law_version_tracks_changes(m: DocumentView, command: EditorCommand)
    requires
        apply_defined(m, command),
    ensures
        ({
            let (after, r) = apply_spec(m, command);
            &&& changes(r) ==> after.version.0 == m.version.0 + 1
            &&& !changes(r) ==> {
                &&& after.text == m.text
                &&& after.dirty == m.dirty
                &&& after.version == m.version
                &&& after.undo == m.undo
                &&& after.redo == m.redo
            }
            &&& after.id == m.id
            &&& after.path == m.path
            &&& after.newline == m.newline
        }),
{
}

/// An edit that changes the document leaves it dirty and empties the redo
/// history, so that a redo right after it does nothing.
pub proof fn law_edit_dirties_and_clears_redo(m: DocumentView, command: EditorCommand)
    requires
        is_edit(command),
        changes(apply_spec(m, command).1),
    ensures
        apply_spec(m, command).0.dirty,
        apply_spec(m, command).0.redo == Seq::<FrameView>::empty(),
        apply_spec(apply_spec(m, command).0, EditorCommand::Redo) == (
            apply_spec(m, command).0,
            Ok::<CommandOutcome, DocumentError>(CommandOutcome::Unchanged),
        ),
{
}

/// With nothing to undo (redo), undo (redo) reports no change and leaves the
/// document as it was.
pub proof fn law_empty_history_is_unchanged(m: DocumentView)
    ensures
        m.undo.len() == 0 ==> apply_spec(m, EditorCommand::Undo) == (
            m,
            Ok::<CommandOutcome, DocumentError>(CommandOutcome::Unchanged),
        ),
        m.redo.len() == 0 ==> apply_spec(m, EditorCommand::Redo) == (
            m,
            Ok::<CommandOutcome, DocumentError>(CommandOutcome::Unchanged),
        ),
{
}

/// Extending the selection moves its head exactly as a caret at the head
/// would move, keeps its anchor, and changes nothing else.
pub proof fn law_extend_moves_head_like_caret(m: DocumentView, movement: CursorMove)
    ensures
        ({
            let caret = DocumentView { selection: caret_spec(m.selection.head as int), ..m };
            let moved = apply_spec(caret, EditorCommand::MoveCursor(movement)).0;
            apply_spec(m, EditorCommand::ExtendSelection(movement)) == (
                DocumentView {
                    selection: Selection { anchor: m.selection.anchor, head: moved.selection.head },
                    ..m
                },
                Ok::<CommandOutcome, DocumentError>(CommandOutcome::Unchanged),
            )
        }),
{
}

/// A command refused with an error leaves the document as it was.
pub proof fn law_error_leaves_document(m: DocumentView, command: EditorCommand)
    requires
        apply_spec(m, command).1 is Err,
    ensures
        apply_spec(m, command).0 == m,
{
}

/// Inserting non-empty text replaces the selection with it and puts the
/// caret right after it.
pub proof fn law_insert_replaces_selection(m: DocumentView, t: String)
    requires
        t@.len() > 0,
        selection_error(m.text.len(), m.selection) is None,
    ensures
        ({
            let (after, r) = apply_spec(m, EditorCommand::InsertText(t));
            let start = sel_start(m.selection);
            &&& after.text == m.text.take(start) + t@ + m.text.skip(sel_end(m.selection))
            &&& after.text.subrange(start, start + t@.len()) == t@
            &&& after.selection == caret_spec(start + t@.len())
            &&& changes(r)
        }),
{
    let start = sel_start(m.selection);
    let after = apply_spec(m, EditorCommand::InsertText(t)).0;
    assert(after.text.subrange(start, start + t@.len()) =~= t@);
}

/// Undoing past a save leaves the document dirty.
pub proof fn law_undo_after_save_is_dirty(m: DocumentView)
    requires
        m.undo.len() > 0,
    ensures
        apply_spec(mark_saved_spec(m), EditorCommand::Undo).0.dirty,
{
}

/// No line starts strictly after `a` and at or before `b`: the line index
/// does not change between them.
pub proof fn lemma_breaks_flat(t: Seq<char>, a: int, b: int)
    requires
        a <= b,
        forall|i: int| a < i <= b ==> !#[trigger] starts_line_at(t, i),
    ensures
        breaks_upto(t, a) == breaks_upto(t, b),
    decreases b - a,
{
    if a < b {
        lemma_breaks_flat(t, a, b - 1);
    }
}

/// A position on a line, no further than the line's visible end, goes to a
/// character index and back unchanged, when no line-break character comes
/// before it on the line.
pub proof fn law_position_round_trip(t: Seq<char>, p: TextPosition)
    requires
        p.line < line_count_of(t),
        p.character <= visible_len(t, p.line as int),
        forall|j: int|
            0 <= j < p.character ==> !is_line_break(#[trigger] line_chars(t, p.line as nat)[j]),
    ensures
        char_to_position_spec(t, position_to_char_spec(t, p)) == p,
{
    let l = p.line as nat;
    lemma_visible_len_bound(t, l as int);
    let ls = line_start(t, l);
    let c = position_to_char_spec(t, p);
    assert(c == ls + p.character);
    lemma_line_start(t, l);
    assert forall|i: int| ls < i <= c implies !#[trigger] starts_line_at(t, i) by {
        assert(t[i - 1] == line_chars(t, l)[i - 1 - ls]);
    }
    lemma_breaks_flat(t, ls, c);
}

/// A character index no further than the visible end of its line goes to a
/// position and back unchanged.
pub proof fn law_char_round_trip(t: Seq<char>, c: int)
    requires
        t.len() <= usize::MAX,
        0 <= c <= t.len(),
        char_to_position_spec(t, c).character <= visible_len(t, char_to_position_spec(t, c).line as int),
    ensures
        position_to_char_spec(t, char_to_position_spec(t, c)) == c,
{
    lemma_char_line(t, c);
    lemma_line_start(t, breaks_upto(t, c));
    lemma_breaks_at_most(t, c);
}

/// There are no more line starts in `1..=c` than positions.
pub proof fn lemma_breaks_at_most(t: Seq<char>, c: int)
    requires
        0 <= c,
    ensures
        breaks_upto(t, c) <= c,
    decreases c,
{
    if c > 0 {
        lemma_breaks_at_most(t, c - 1);
    }
}

/// Save, save-as and copy leave the document as it was; cursor moves,
/// selection changes and select-all change the selection alone.
pub proof fn law_requests_and_moves_keep_text(m: DocumentView, command: EditorCommand)
    ensures
        (command is Save || command is SaveAs || command is Copy) ==> apply_spec(m, command).0
            == m,
        (command is MoveCursor || command is ExtendSelection || command is SetSelection
            || command is SelectAll) ==> apply_spec(m, command).0 == (DocumentView {
            selection: apply_spec(m, command).0.selection,
            ..m
        }),
{
}

/// The line a vertical move from `head` aims at.
pub open spec fn vertical_target(t: Seq<char>, head: int, down: bool) -> int {
    let pos = char_to_position_spec(t, head);
    if down {
        pos.line + 1
    } else {
        pos.line - 1
    }
}

/// The offset a vertical move from `head` keeps, clamped to the target line.
pub open spec fn vertical_width(t: Seq<char>, head: int, down: bool) -> int {
    min_int(
        char_to_position_spec(t, head).character as int,
        visible_len(t, vertical_target(t, head, down)) as int,
    )
}

/// Moving the cursor down (up) from a line that has one below (above) lands
/// on that line, at the same offset clamped to the line's visible length,
/// when no line-break character comes before that offset on the line.
pub proof fn law_vertical_move_keeps_column(t: Seq<char>, head: int, down: bool)
    requires
        t.len() <= usize::MAX,
        0 <= head,
        0 <= vertical_target(t, head, down) < line_count_of(t),
        forall|j: int|
            0 <= j < vertical_width(t, head, down) ==> !is_line_break(
                #[trigger] line_chars(t, vertical_target(t, head, down) as nat)[j],
            ),
    ensures
        char_to_position_spec(
            t,
            move_target(t, head, if down {
                CursorMove::Down
            } else {
                CursorMove::Up
            }),
        ) == (TextPosition {
            line: vertical_target(t, head, down) as usize,
            character: vertical_width(t, head, down) as usize,
        }),
{
    let pos = char_to_position_spec(t, head);
    let b = min_int(head, t.len() as int);
    lemma_char_line(t, b);
    lemma_breaks_at_most(t, b);
    let target = vertical_target(t, head, down);
    let width = vertical_width(t, head, down);
    let p = TextPosition { line: target as usize, character: width as usize };
    let q = TextPosition { line: target as usize, character: pos.character };
    lemma_visible_len_bound(t, target);
    lemma_line_start(t, target as nat);
    lemma_breaks_at_most(t, t.len() as int);
    assert(p.line as int == target);
    assert(p.character as int == width);
    assert(position_to_char_spec(t, q) == position_to_char_spec(t, p));
    assert forall|j: int| 0 <= j < p.character implies !is_line_break(
        #[trigger] line_chars(t, p.line as nat)[j],
    ) by {
        assert(line_chars(t, p.line as nat)[j] == line_chars(t, target as nat)[j]);
    }
    law_position_round_trip(t, p);
}

// ----------------------------------------------------------------------------
// Selections stay within the text.

/// A snapshot's selection lies within the snapshot's text.
pub open spec fn frame_in_bounds(f: FrameView) -> bool {
    selection_error(f.text.len(), f.selection) is None
}

/// The selection lies within the text, and so does the selection of every
/// snapshot of both histories, within that snapshot's text.
pub open spec fn selections_in_bounds(m: DocumentView) -> bool {
    &&& selection_error(m.text.len(), m.selection) is None
    &&& forall|i: int| 0 <= i < m.undo.len() ==> #[trigger] frame_in_bounds(m.undo[i])
    &&& forall|i: int| 0 <= i < m.redo.len() ==> #[trigger] frame_in_bounds(m.redo[i])
}

/// A text position goes to a character index within the text.
pub proof fn lemma_position_to_char_bound(t: Seq<char>, p: TextPosition)
    ensures
        0 <= position_to_char_spec(t, p) <= t.len(),
{
    let l = min_int(p.line as int, line_count_of(t) - 1);
    lemma_visible_len_bound(t, l);
}

/// A cursor within the text moves to a place within the text.
pub proof fn lemma_move_target_bound(t: Seq<char>, head: int, movement: CursorMove)
    requires
        0 <= head <= t.len(),
    ensures
        0 <= move_target(t, head, movement) <= t.len(),
{
    let pos = char_to_position_spec(t, head);
    lemma_position_to_char_bound(t, TextPosition { line: (pos.line - 1) as usize, character: pos.character });
    lemma_position_to_char_bound(t, TextPosition { line: (pos.line + 1) as usize, character: pos.character });
    lemma_position_to_char_bound(t, TextPosition { line: pos.line, character: 0 });
    lemma_position_to_char_bound(
        t,
        TextPosition { line: pos.line, character: visible_len(t, pos.line as int) as usize },
    );
    match movement {
        CursorMove::ToPosition(p) => lemma_position_to_char_bound(t, p),
        _ => {},
    }
}

/// A new document (a caret at the start, no history) has its selections
/// within bounds; saving it or giving it a path keeps them there.
pub proof fn law_new_and_saved_documents_in_bounds(m: DocumentView, path: PathBuf)
    ensures
        m.selection == caret_spec(0) && m.undo.len() == 0 && m.redo.len() == 0
            ==> selections_in_bounds(m),
        selections_in_bounds(m) ==> selections_in_bounds(mark_saved_spec(m)),
        selections_in_bounds(m) ==> selections_in_bounds(DocumentView { path: Some(path), ..m }),
{
    if selections_in_bounds(m) {
        let s = mark_saved_spec(m);
        assert forall|i: int| 0 <= i < s.undo.len() implies #[trigger] frame_in_bounds(s.undo[i]) by {
            assert(frame_in_bounds(m.undo[i]));
        }
    }
}

/// Under every command, a document whose selections lie within bounds
/// keeps them there (where the new text fits in memory), and a command
/// fails exactly when it sets a selection that does not lie within the text.
pub proof fn law_selection_stays_in_bounds(m: DocumentView, command: EditorCommand)
    requires
        selections_in_bounds(m),
        apply_spec(m, command).0.text.len() <= usize::MAX,
    ensures
        selections_in_bounds(apply_spec(m, command).0),
        apply_spec(m, command).1 is Err <==> (command matches EditorCommand::SetSelection(s)
            && selection_error(m.text.len(), s) is Some),
{
    let after = apply_spec(m, command).0;
    let current = FrameView { text: m.text, selection: m.selection, dirty: m.dirty };
    assert(frame_in_bounds(current));
    let pushed = push_undo_spec(m);
    assert forall|i: int| 0 <= i < pushed.undo.len() implies #[trigger] frame_in_bounds(pushed.undo[i]) by {
        if i < m.undo.len() {
            assert(frame_in_bounds(m.undo[i]));
        }
    }
    match command {
        EditorCommand::MoveCursor(mv) => {
            lemma_move_target_bound(m.text, m.selection.head as int, mv);
        },
        EditorCommand::ExtendSelection(mv) => {
            lemma_move_target_bound(m.text, m.selection.head as int, mv);
        },
        EditorCommand::Undo => {
            if m.undo.len() > 0 {
                assert(frame_in_bounds(m.undo[m.undo.len() - 1]));
                assert forall|i: int| 0 <= i < after.undo.len() implies #[trigger] frame_in_bounds(after.undo[i]) by {
                    assert(frame_in_bounds(m.undo[i]));
                }
                assert forall|i: int| 0 <= i < after.redo.len() implies #[trigger] frame_in_bounds(after.redo[i]) by {
                    if i < m.redo.len() {
                        assert(frame_in_bounds(m.redo[i]));
                    }
                }
            }
        },
        EditorCommand::Redo => {
            if m.redo.len() > 0 {
                assert(frame_in_bounds(m.redo[m.redo.len() - 1]));
                assert forall|i: int| 0 <= i < after.redo.len() implies #[trigger] frame_in_bounds(after.redo[i]) by {
                    assert(frame_in_bounds(m.redo[i]));
                }
                assert forall|i: int| 0 <= i < after.undo.len() implies #[trigger] frame_in_bounds(after.undo[i]) by {
                    if i < m.undo.len() {
                        assert(frame_in_bounds(m.undo[i]));
                    }
                }
            }
        },
        _ => {},
    }
}

// ----------------------------------------------------------------------------
// Texts whose only line break is LF.

/// Every line-break character of the text is an LF.
pub open spec fn only_lf_breaks(t: Seq<char>) -> bool {
    forall|i: int| 0 <= i < t.len() && #[trigger] is_line_break(t[i]) ==> t[i] == '\n'
}

/// In a text whose only line-break character is LF, a line holds no line
/// break but its last character, and its visible part is all of it but a
/// final LF.
proof fn lemma_lf_line(t: Seq<char>, l: int)
    requires
        only_lf_breaks(t),
        0 <= l < line_count_of(t),
    ensures
        forall|i: int|
            line_start(t, l as nat) <= i < line_start(t, (l + 1) as nat) - 1 ==> !is_line_break(
                #[trigger] t[i],
            ),
        visible_len(t, l) == if line_start(t, (l + 1) as nat) > line_start(t, l as nat) && t[line_start(
            t,
            (l + 1) as nat,
        ) - 1] == '\n' {
            line_start(t, (l + 1) as nat) - line_start(t, l as nat) - 1
        } else {
            line_start(t, (l + 1) as nat) - line_start(t, l as nat)
        },
{
    let ls = line_start(t, l as nat);
    let le = line_start(t, (l + 1) as nat);
    lemma_line_start(t, l as nat);
    lemma_next_line_start(t, ls);
    assert(le == next_line_start(t, ls));
    assert forall|i: int| ls <= i < le - 1 implies !is_line_break(#[trigger] t[i]) by {
        if is_line_break(t[i]) {
            assert(starts_line_at(t, i + 1));
            assert(breaks_upto(t, i + 1) == breaks_upto(t, i) + 1);
            assert(breaks_upto(t, i) == breaks_upto(t, ls));
            assert(breaks_upto(t, i + 1) == breaks_upto(t, ls));
        }
    }
    let line = line_chars(t, l as nat);
    assert(line == t.subrange(ls, le));
    if le > ls && t[le - 1] == '\n' {
        assert(line.last() == '\n');
        let rest = line.drop_last();
        if rest.len() > 0 {
            assert(rest.last() == t[le - 2]);
            assert(!is_line_break(t[le - 2]));
        }
        assert(trim_line_end(line) == trim_line_end(rest));
        assert(trim_line_end(rest) == rest);
    } else if le > ls {
        assert(line.last() == t[le - 1]);
        if t[le - 1] == '\r' {
            assert(is_line_break(t[le - 1]));
        }
        assert(trim_line_end(line) == line);
    } else {
        assert(trim_line_end(line) == line);
    }
}

/// In a text whose only line-break character is LF, every character index
/// goes to a position and back unchanged, and every position on a line, no
/// further than the line's visible end, goes to a character index and back
/// unchanged.
pub proof fn law_lf_round_trips(t: Seq<char>, c: int, p: TextPosition)
    requires
        only_lf_breaks(t),
        t.len() <= usize::MAX,
    ensures
        0 <= c <= t.len() ==> position_to_char_spec(t, char_to_position_spec(t, c)) == c,
        p.line < line_count_of(t) && p.character <= visible_len(t, p.line as int)
            ==> char_to_position_spec(t, position_to_char_spec(t, p)) == p,
{
    if 0 <= c <= t.len() {
        let l = breaks_upto(t, c);
        lemma_char_line(t, c);
        lemma_lf_line(t, l as int);
        lemma_line_start(t, l);
        lemma_breaks_at_most(t, c);
        let ls = line_start(t, l);
        let le = line_start(t, l + 1);
        if le > ls && t[le - 1] == '\n' && c == le {
            assert(l + 1 < line_count_of(t)) by {
                lemma_last_line_start(t);
                if l + 1 == line_count_of(t) {
                    assert(le == t.len());
                    assert(starts_line_at(t, t.len() as int));
                    lemma_breaks_monotone(t, ls, t.len() - 1);
                    assert(breaks_upto(t, t.len() as int) == breaks_upto(t, t.len() - 1) + 1);
                }
            }
        }
        law_char_round_trip(t, c);
    }
    if p.line < line_count_of(t) && p.character <= visible_len(t, p.line as int) {
        let l = p.line as int;
        lemma_lf_line(t, l);
        lemma_line_start(t, l as nat);
        assert forall|j: int| 0 <= j < p.character implies !is_line_break(
            #[trigger] line_chars(t, p.line as nat)[j],
        ) by {
            assert(line_chars(t, p.line as nat)[j] == t[line_start(t, l as nat) + j]);
        }
        law_position_round_trip(t, p);
    }
}

} // verus!
