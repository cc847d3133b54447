//! What committing the text of the cell editor does to the sheet.
use vstd::prelude::*;

use crate::cell_names::{cell_name, cell_name_of};
use crate::common_types::{Index, Numeric};
use crate::parser::{raw_is_readable, raw_readable};
use crate::sheet_file::{trim_chars, trimmed};
use crate::spreadsheet::{
    adds_cell, law_add_then_read, law_mutate_then_read, law_remove_then_read, mutates_cell,
    removes_cell, same_reading, SpreadSheet,
};
use crate::text::{chars_of, string_from_range};

verus! {

/// What an edit of a cell amounts to.
#[derive(PartialEq, Eq, Structural, Clone, Copy, Debug)]
pub enum Edit {
    /// The text is the same: nothing happens.
    Unchanged,
    /// An empty cell gets a text.
    Add,
    /// A cell's text is cleared.
    Remove,
    /// A cell's text is replaced.
    Mutate,
}

/// What replacing the text `previous` of a cell (empty for no cell) by
/// `new` amounts to.
pub open spec fn edit_kind(previous: Seq<char>, new: Seq<char>) -> Edit {
    if previous == new {
        Edit::Unchanged
    } else if previous.len() == 0 {
        Edit::Add
    } else if new.len() == 0 {
        Edit::Remove
    } else {
        Edit::Mutate
    }
}

/// The text of the cell at `index` in `s`, empty when there is none.
pub open spec fn raw_or_empty<N: Numeric>(s: SpreadSheet<N>, index: Index) -> Seq<char> {
    if s@.contains_key(index) {
        s@[index].raw_representation@
    } else {
        Seq::empty()
    }
}

/// `s2` is `s` after the editor text `content` was committed for the cell
/// at `index`: trimmed, it is added as a new cell, clears the cell,
/// replaces its text, or, if it is the cell's text already, changes nothing.
pub open spec fn commits<N: Numeric>(
    s: SpreadSheet<N>,
    index: Index,
    content: Seq<char>,
    s2: SpreadSheet<N>,
) -> bool {
    match edit_kind(raw_or_empty(s, index), trimmed(content)) {
        Edit::Unchanged => s2 == s,
        Edit::Add => adds_cell(s, index, trimmed(content), s2),
        Edit::Remove => removes_cell(s, index, s2),
        Edit::Mutate => mutates_cell(s, index, trimmed(content), s2),
    }
}

/// The cell editor: the cell being edited, if any, and the text in it.
pub struct EditorState {
    pub selected: Option<Index>,
    pub content: String,
}

/// The editor text starts with `=`: it holds an expression.
pub open spec fn holds_expression(content: Seq<char>) -> bool {
    content.len() > 0 && content[0] == '='
}

/// `(s2, e2)` is the sheet and editor after a click on the cell `at`, with
/// Ctrl held if `ctrl`: with Ctrl, the name of the clicked cell is appended
/// to an expression being edited; without, the edit is committed and the
/// clicked cell selected, its text in the editor (nothing happens on a click
/// on the selected cell).
pub open spec fn clicked<N: Numeric>(
    s: SpreadSheet<N>,
    e: EditorState,
    at: Index,
    ctrl: bool,
    s2: SpreadSheet<N>,
    e2: EditorState,
) -> bool {
    if ctrl {
        &&& s2 == s
        &&& e2.selected == e.selected
        &&& e2.content@ == if e.selected is Some && holds_expression(e.content@) {
            e.content@ + cell_name(at.x as nat, at.y as nat)
        } else {
            e.content@
        }
    } else if e.selected == Some(at) {
        s2 == s && e2 == e
    } else {
        &&& match e.selected {
            Some(idx) => commits(s, idx, e.content@, s2),
            None => s2 == s,
        }
        &&& e2.selected == Some(at)
        &&& e2.content@ == raw_or_empty(s2, at)
    }
}

/// `(s2, e2)` is the sheet and editor after Enter: the edit is committed,
/// and the editor is emptied with no cell selected.
pub open spec fn entered<N: Numeric>(
    s: SpreadSheet<N>,
    e: EditorState,
    s2: SpreadSheet<N>,
    e2: EditorState,
) -> bool {
    &&& match e.selected {
        Some(idx) => commits(s, idx, e.content@, s2),
        None => s2 == s,
    }
    &&& e2.selected is None
    &&& e2.content@ == Seq::<char>::empty()
}

/// What replacing the text `previous` of a cell by `new` amounts to.
pub fn classify_edit(previous: &str, new: &str) -> (r: Edit)
    ensures
        r == edit_kind(previous@, new@),
{
    if crate::text::same_text(previous, new) {
        Edit::Unchanged
    } else if previous.unicode_len() == 0 {
        Edit::Add
    } else if new.unicode_len() == 0 {
        Edit::Remove
    } else {
        Edit::Mutate
    }
}

impl<N: Numeric> SpreadSheet<N> {
    /// Whether the editor text `content`, once trimmed, can be read by
    /// `parse_cell`: what `commit_edit` needs.
    pub fn edit_is_readable(content: &str) -> (r: bool)
        ensures
            r == raw_readable(trimmed(content@)),
    {
        let cs = chars_of(content);
        let t = trim_chars(&cs);
        let s = string_from_range(&t, 0, t.len());
        assert(t@.subrange(0, t@.len() as int) =~= t@);
        raw_is_readable::<N>(s.as_str())
    }

    /// Commits the editor text `content` for the cell at `index`: trimmed,
    /// it is added as a new cell, clears the cell, replaces its text, or,
    /// if it is the cell's text already, changes nothing.
    pub fn commit_edit(&mut self, index: Index, content: &str)
        requires
            old(self).wf(),
            raw_readable(trimmed(content@)),
        ensures
            final(self).wf(),
            commits(*old(self), index, content@, *final(self)),
    {
        let cs = chars_of(content);
        let t = trim_chars(&cs);
        let new_content = string_from_range(&t, 0, t.len());
        assert(t@.subrange(0, t@.len() as int) =~= t@);
        let previous = match self.get_raw(&index) {
            Some(p) => String::from_str(p),
            None => String::new(),
        };
        proof {
            if self@.contains_key(index) {
                self.lemma_raw_not_empty(index);
            }
        }
        match classify_edit(previous.as_str(), new_content.as_str()) {
            Edit::Unchanged => {},
            Edit::Add => {
                proof {
                    if new_content@.len() == 0 {
                        assert(new_content@ =~= previous@);
                    }
                }
                self.add_cell_and_compute(index, new_content)
            },
            Edit::Remove => self.remove_cell(index),
            Edit::Mutate => self.mutate_cell(index, new_content),
        }
    }
}

impl EditorState {
    /// No cell selected, nothing typed.
    pub fn new() -> (r: Self)
        ensures
            r.selected is None,
            r.content@ == Seq::<char>::empty(),
    {
        EditorState { selected: None, content: String::new() }
    }

    /// Whether the editor text starts with `=`.
    fn starts_expression(&self) -> (r: bool)
        ensures
            r == holds_expression(self.content@),
    {
        self.content.unicode_len() > 0 && self.content.get_char(0) == '='
    }

    /// A click on the cell `at` of `sheet`, with Ctrl held if `ctrl`.
    pub fn click<N: Numeric>(&mut self, sheet: &mut SpreadSheet<N>, at: Index, ctrl: bool)
        requires
            old(sheet).wf(),
            ctrl && old(self).selected is Some && holds_expression(old(self).content@) ==> at.y
                < usize::MAX,
            !ctrl && old(self).selected is Some && old(self).selected != Some(at) ==> raw_readable(
                trimmed(old(self).content@),
            ),
        ensures
            final(sheet).wf(),
            clicked(*old(sheet), *old(self), at, ctrl, *final(sheet), *final(self)),
    {
        if ctrl {
            if self.selected.is_some() && self.starts_expression() {
                let name = cell_name_of(at.x, at.y);
                self.content.append(name.as_str());
            }
        } else {
            if self.selected == Some(at) {
                return;
            }
            match self.selected {
                Some(idx) => sheet.commit_edit(idx, self.content.as_str()),
                None => {},
            }
            let text = match sheet.get_raw(&at) {
                Some(t) => String::from_str(t),
                None => String::new(),
            };
            self.content = text;
            self.selected = Some(at);
        }
    }

    /// Enter: commits the edit, then empties the editor and selects nothing.
    pub fn enter<N: Numeric>(&mut self, sheet: &mut SpreadSheet<N>)
        requires
            old(sheet).wf(),
            old(self).selected is Some ==> raw_readable(trimmed(old(self).content@)),
        ensures
            final(sheet).wf(),
            entered(*old(sheet), *old(self), *final(sheet), *final(self)),
    {
        match self.selected {
            Some(idx) => sheet.commit_edit(idx, self.content.as_str()),
            None => {},
        }
        self.selected = None;
        self.content = String::new();
    }
}


/// Committing the editor text for the cell at `index` leaves there the
/// trimmed text (no cell when it is empty), and every other cell with its
/// text.
pub proof fn law_commit_then_read<N: Numeric>(
    s: SpreadSheet<N>,
    index: Index,
    content: Seq<char>,
    s2: SpreadSheet<N>,
)
    requires
        s.wf(),
        commits(s, index, content, s2),
    ensures
        raw_or_empty(s2, index) == trimmed(content),
        forall|k: Index| k != index ==> #[trigger] raw_or_empty(s2, k) == raw_or_empty(s, k),
{
    let t = trimmed(content);
    match edit_kind(raw_or_empty(s, index), t) {
        Edit::Unchanged => {},
        Edit::Add => {
            if s@.contains_key(index) {
                s.lemma_raw_not_empty(index);
            }
            law_add_then_read(s, index, t, s2);
            assert forall|k: Index| k != index implies #[trigger] raw_or_empty(s2, k) == raw_or_empty(s, k) by {
                if s@.contains_key(k) {
                    assert(same_reading(s2@[k], s@[k]));
                }
            }
        },
        Edit::Remove => {
            law_remove_then_read(s, index, s2);
            assert(!s2@.contains_key(index));
            assert forall|k: Index| k != index implies #[trigger] raw_or_empty(s2, k) == raw_or_empty(s, k) by {
                if s@.contains_key(k) {
                    assert(same_reading(s2@[k], s@[k]));
                }
            }
        },
        Edit::Mutate => {
            law_mutate_then_read(s, index, t, s2);
            assert forall|k: Index| k != index implies #[trigger] raw_or_empty(s2, k) == raw_or_empty(s, k) by {
                if s@.contains_key(k) {
                    assert(same_reading(s2@[k], s@[k]));
                }
            }
        },
    }
}

/// A click without Ctrl on a cell other than the one being edited commits
/// the edit: the edited cell then holds the trimmed editor text (no cell
/// when it is empty) and every other cell keeps its text; the clicked cell
/// is selected, with the text it held in the editor.
pub proof fn law_plain_click_commits<N: Numeric>(
    s: SpreadSheet<N>,
    e: EditorState,
    at: Index,
    s2: SpreadSheet<N>,
    e2: EditorState,
)
    requires
        s.wf(),
        clicked(s, e, at, false, s2, e2),
        e.selected is Some,
        e.selected != Some(at),
    ensures
        raw_or_empty(s2, e.selected->Some_0) == trimmed(e.content@),
        forall|k: Index| k != e.selected->Some_0 ==> #[trigger] raw_or_empty(s2, k) == raw_or_empty(s, k),
        e2.selected == Some(at),
        e2.content@ == raw_or_empty(s, at),
{
    let idx = e.selected->Some_0;
    law_commit_then_read(s, idx, e.content@, s2);
    assert(raw_or_empty(s2, at) == raw_or_empty(s, at));
}

/// A click without Ctrl on another cell leaves every cell with the text that
/// Enter would have left in it.
pub proof fn law_plain_click_commits_like_enter<N: Numeric>(
    s: SpreadSheet<N>,
    e: EditorState,
    at: Index,
    s2: SpreadSheet<N>,
    e2: EditorState,
    s3: SpreadSheet<N>,
    e3: EditorState,
)
    requires
        s.wf(),
        clicked(s, e, at, false, s2, e2),
        entered(s, e, s3, e3),
        e.selected is Some,
        e.selected != Some(at),
    ensures
        forall|k: Index| #[trigger] raw_or_empty(s2, k) == raw_or_empty(s3, k),
{
    let idx = e.selected->Some_0;
    law_commit_then_read(s, idx, e.content@, s2);
    law_commit_then_read(s, idx, e.content@, s3);
    assert forall|k: Index| #[trigger] raw_or_empty(s2, k) == raw_or_empty(s3, k) by {
        if k != idx {
            assert(raw_or_empty(s2, k) == raw_or_empty(s, k));
            assert(raw_or_empty(s3, k) == raw_or_empty(s, k));
        }
    }
}

} // verus!
