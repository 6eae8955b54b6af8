//! What an editor widget asks of a document: its editing requests, its
//! replacement of a range of text, and the selection that a region of the
//! widget's cursor stands for. The widget itself (clipboard, key handling,
//! byte offsets) stays outside; these functions decide what the document does.
use crate::document::{
    apply_defined, apply_spec, caret_spec, changes, cut_spec, delete_backward_spec,
    delete_selection_spec, insert_text_spec, move_target, redo_spec, sel_end, sel_start, selection_error,
    splice, text_range_spec, undo_spec, CursorMove, DocumentState, DocumentView, EditorCommand,
    Selection,
};
use vstd::prelude::*;

verus! {

/// An editing request of the widget, each run as one or two editor commands.
#[derive(Clone, Debug, PartialEq, Eq)]
pub enum EditAction {
    /// The selected text goes to the clipboard; the document is unchanged.
    Copy,
    /// The selected text goes to the clipboard and leaves the document.
    Cut,
    /// Text from the clipboard replaces the selection.
    Paste(String),
    /// Typed text replaces the selection.
    Type(String),
    Undo,
    Redo,
    DeleteBackward,
    /// The character after the caret (or the selection) is deleted: the
    /// caret moves right, then deletes backward.
    DeleteForward,
    InsertNewLine,
    InsertTab,
    /// The caret moves, collapsing the selection.
    Move(CursorMove),
    /// The head moves, the anchor stays.
    Extend(CursorMove),
    SelectAll,
}

/// The model after an editing request.
pub open spec fn edit_action_spec(m: DocumentView, a: EditAction) -> DocumentView {
    match a {
        EditAction::Copy => m,
        EditAction::Cut => cut_spec(m).0,
        EditAction::Paste(t) => insert_text_spec(m, t@).0,
        EditAction::Type(t) => insert_text_spec(m, t@).0,
        EditAction::Undo => undo_spec(m).0,
        EditAction::Redo => redo_spec(m).0,
        EditAction::DeleteBackward => delete_backward_spec(m).0,
        EditAction::DeleteForward => delete_backward_spec(
            apply_spec(m, EditorCommand::MoveCursor(CursorMove::Right)).0,
        ).0,
        EditAction::InsertNewLine => insert_text_spec(m, seq!['\n']).0,
        EditAction::InsertTab => insert_text_spec(m, seq!['\t']).0,
        EditAction::Move(mv) => apply_spec(m, EditorCommand::MoveCursor(mv)).0,
        EditAction::Extend(mv) => apply_spec(m, EditorCommand::ExtendSelection(mv)).0,
        EditAction::SelectAll => apply_spec(m, EditorCommand::SelectAll).0,
    }
}

/// Each editor command that a request runs is defined on the model it meets.
pub open spec fn edit_action_defined(m: DocumentView, a: EditAction) -> bool {
    match a {
        EditAction::Copy => true,
        EditAction::Cut => apply_defined(m, EditorCommand::Cut),
        EditAction::Paste(t) => apply_defined(m, EditorCommand::Paste(t)),
        EditAction::Type(t) => apply_defined(m, EditorCommand::InsertText(t)),
        EditAction::Undo => apply_defined(m, EditorCommand::Undo),
        EditAction::Redo => apply_defined(m, EditorCommand::Redo),
        EditAction::DeleteBackward => apply_defined(m, EditorCommand::DeleteBackward),
        EditAction::DeleteForward => {
            &&& apply_defined(m, EditorCommand::MoveCursor(CursorMove::Right))
            &&& apply_defined(
                apply_spec(m, EditorCommand::MoveCursor(CursorMove::Right)).0,
                EditorCommand::DeleteBackward,
            )
        },
        EditAction::InsertNewLine => changes(insert_text_spec(m, seq!['\n']).1) ==> m.version.0
            < u64::MAX,
        EditAction::InsertTab => changes(insert_text_spec(m, seq!['\t']).1) ==> m.version.0
            < u64::MAX,
        EditAction::Move(mv) => apply_defined(m, EditorCommand::MoveCursor(mv)),
        EditAction::Extend(mv) => apply_defined(m, EditorCommand::ExtendSelection(mv)),
        EditAction::SelectAll => true,
    }
}

/// What a request hands to the clipboard: the selected text for copy and
/// cut, when the selection is not a caret.
pub open spec fn clipboard_spec(m: DocumentView, a: EditAction) -> Option<Seq<char>> {
    if (a is Copy || a is Cut) && sel_start(m.selection) < sel_end(m.selection) {
        Some(text_range_spec(m.text, sel_start(m.selection), sel_end(m.selection)))
    } else {
        None
    }
}

/// The model after the widget's replacement of `start..end` with `content`:
/// a non-empty range is selected and deleted, then non-empty content is
/// inserted at a caret on `start`.
pub open spec fn replace_range_spec(
    m: DocumentView,
    start: usize,
    end: usize,
    content: Seq<char>,
) -> DocumentView {
    let cleared = if start != end {
        delete_selection_spec(
            apply_spec(m, EditorCommand::SetSelection(Selection { anchor: start, head: end })).0,
        ).0
    } else {
        m
    };
    if content.len() > 0 {
        insert_text_spec(
            apply_spec(cleared, EditorCommand::SetSelection(caret_spec(start as int))).0,
            content,
        ).0
    } else {
        cleared
    }
}

/// Each command of a replacement is defined on the model it meets.
pub open spec fn replace_range_defined(
    m: DocumentView,
    start: usize,
    end: usize,
    content: Seq<char>,
) -> bool {
    let selected = apply_spec(
        m,
        EditorCommand::SetSelection(Selection { anchor: start, head: end }),
    ).0;
    let cleared = if start != end {
        delete_selection_spec(selected).0
    } else {
        m
    };
    let at_start = apply_spec(cleared, EditorCommand::SetSelection(caret_spec(start as int))).0;
    &&& start != end ==> apply_defined(selected, EditorCommand::DeleteSelection)
    &&& content.len() > 0 ==> (changes(insert_text_spec(at_start, content).1)
        ==> at_start.version.0 < u64::MAX)
}

/// The selection that a cursor region `start..end` of the widget stands
/// for: a caret where the region is empty; otherwise the region, turned so
/// that the current anchor stays the anchor where it is one of its ends.
pub open spec fn selection_for_region_spec(anchor: usize, start: usize, end: usize) -> Selection {
    if start == end {
        caret_spec(start as int)
    } else if anchor == end && anchor != start {
        Selection { anchor: end, head: start }
    } else {
        Selection { anchor: start, head: end }
    }
}

/// See `selection_for_region_spec`.
pub fn selection_for_region(anchor: usize, start: usize, end: usize) -> (s: Selection)
    ensures
        s == selection_for_region_spec(anchor, start, end),
{
    if start == end {
        Selection::caret(start)
    } else if anchor == start {
        Selection { anchor: start, head: end }
    } else if anchor == end {
        Selection { anchor: end, head: start }
    } else {
        Selection { anchor: start, head: end }
    }
}

impl DocumentState {
    /// Runs an editing request of the widget and returns what goes to the
    /// clipboard.
    pub fn handle_edit_action(&mut self, action: EditAction) -> (clip: Option<String>)
        requires
            edit_action_defined(old(self)@, action),
        ensures
            final(self)@ == edit_action_spec(old(self)@, action),
            match clipboard_spec(old(self)@, action) {
                Some(t) => clip matches Some(c) && c@ == t,
                None => clip is None,
            },
    {
        let clip = match action {
            EditAction::Copy | EditAction::Cut => self.selected_text(),
            _ => None,
        };
        match action {
            EditAction::Copy => {},
            EditAction::Cut => {
                let _ = self.apply(EditorCommand::Cut);
            },
            EditAction::Paste(t) => {
                let _ = self.apply(EditorCommand::Paste(t));
            },
            EditAction::Type(t) => {
                let _ = self.apply(EditorCommand::InsertText(t));
            },
            EditAction::Undo => {
                let _ = self.apply(EditorCommand::Undo);
            },
            EditAction::Redo => {
                let _ = self.apply(EditorCommand::Redo);
            },
            EditAction::DeleteBackward => {
                let _ = self.apply(EditorCommand::DeleteBackward);
            },
            EditAction::DeleteForward => {
                let _ = self.apply(EditorCommand::MoveCursor(CursorMove::Right));
                let _ = self.apply(EditorCommand::DeleteBackward);
            },
            EditAction::InsertNewLine => {
                let line_break = "\n";
                proof {
                    reveal_strlit("\n");
                }
                let text = line_break.to_owned();
                assert(text@ =~= seq!['\n']);
                let _ = self.apply(EditorCommand::InsertText(text));
            },
            EditAction::InsertTab => {
                let tab = "\t";
                proof {
                    reveal_strlit("\t");
                }
                let text = tab.to_owned();
                assert(text@ =~= seq!['\t']);
                let _ = self.apply(EditorCommand::InsertText(text));
            },
            EditAction::Move(mv) => {
                let _ = self.apply(EditorCommand::MoveCursor(mv));
            },
            EditAction::Extend(mv) => {
                let _ = self.apply(EditorCommand::ExtendSelection(mv));
            },
            EditAction::SelectAll => {
                let _ = self.apply(EditorCommand::SelectAll);
            },
        }
        clip
    }

    /// Replaces the characters `start..end` with `content`, as the widget
    /// does when it edits a region of its text.
    pub fn replace_range(&mut self, start: usize, end: usize, content: &str)
        requires
            replace_range_defined(old(self)@, start, end, content@),
        ensures
            final(self)@ == replace_range_spec(old(self)@, start, end, content@),
    {
        if start != end {
            let _ = self.apply(EditorCommand::SetSelection(Selection { anchor: start, head: end }));
            let _ = self.apply(EditorCommand::DeleteSelection);
        }
        if !content.is_empty() {
            let _ = self.apply(EditorCommand::SetSelection(Selection::caret(start)));
            let _ = self.apply(EditorCommand::InsertText(content.to_owned()));
        }
    }
}

/// Replacing a range that lies inside the text puts `content` in its place;
/// where anything was deleted or inserted, the caret ends after `content`.
pub proof fn law_replace_range_splices(
    m: DocumentView,
    start: usize,
    end: usize,
    content: Seq<char>,
)
    requires
        start <= end <= m.text.len(),
    ensures
        replace_range_spec(m, start, end, content).text == splice(
            m.text,
            start as int,
            end as int,
            content,
        ),
        start != end || content.len() > 0 ==> replace_range_spec(m, start, end, content).selection
            == caret_spec(start + content.len()),
{
    let t = m.text;
    let cleared = replace_range_spec(m, start, end, Seq::empty());
    assert(cleared.text =~= splice(t, start as int, end as int, Seq::empty()));
    if content.len() > 0 {
        let t1 = cleared.text;
        assert(t1.take(start as int) =~= t.take(start as int));
        assert(t1.skip(start as int) =~= t.skip(end as int));
        assert(splice(t1, start as int, start as int, content) =~= splice(
            t,
            start as int,
            end as int,
            content,
        ));
    } else {
        assert(splice(t, start as int, end as int, content) =~= cleared.text);
    }
}

/// Deleting forward at a caret inside the text removes the character after
/// the caret and leaves the caret where it was.
pub proof fn law_delete_forward_at_caret(m: DocumentView)
    requires
        m.selection.anchor == m.selection.head,
        m.selection.head < m.text.len(),
        m.text.len() <= usize::MAX,
    ensures
        edit_action_spec(m, EditAction::DeleteForward).text == splice(
            m.text,
            m.selection.head as int,
            m.selection.head + 1,
            Seq::empty(),
        ),
        edit_action_spec(m, EditAction::DeleteForward).selection == m.selection,
{
    let c = m.selection.head as int;
    let moved = apply_spec(m, EditorCommand::MoveCursor(CursorMove::Right)).0;
    assert(move_target(m.text, c, CursorMove::Right) == c + 1);
    assert(moved.selection == caret_spec(c + 1));
    assert(moved.text == m.text);
    assert(selection_error(moved.text.len(), moved.selection) is None);
}

} // verus!
