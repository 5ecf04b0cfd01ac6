//! The editing session: the store of paths, the rows derived from it, a
//! selection cursor over the rows, and the insert / edit / delete workflows.
use vstd::prelude::*;
use vstd::string::StringExecFns;
use crate::node::rows_view;
use crate::path::{trimmed, trim_str};
use crate::store::{
    strings_view, rows_of_store, kept, detached, reattached, without_first, build_rows,
    remove_exact, remove_subtree, detach_below, reattach,
};

verus! {

broadcast use vstd::string::group_string_axioms;

/// What the session is doing.
#[derive(Debug, Clone, Copy, PartialEq, Eq, Structural)]
pub enum InputMode {
    Normal,
    Insert,
    Edit,
    DeleteConfirm,
}

/// The selection is absent exactly when there are no rows, and otherwise
/// points at a row.
pub open spec fn cursor_ok(sel: Option<usize>, n: int) -> bool {
    match sel {
        None => n == 0,
        Some(i) => i < n,
    }
}

/// The selection after the rows changed to `n` rows: cleared when there are
/// none, at the first row when there was none, at the last row when past it.
pub open spec fn clamped(sel: Option<usize>, n: int) -> Option<usize> {
    if n <= 0 {
        None
    } else {
        match sel {
            None => Some(0usize),
            Some(i) => if i >= n { Some((n - 1) as usize) } else { Some(i) },
        }
    }
}

/// The modes in which the input buffer takes typing.
pub open spec fn takes_text(mode: InputMode) -> bool {
    mode == InputMode::Insert || mode == InputMode::Edit
}

/// The display lines of `rows`, separated by newlines.
pub open spec fn text_of(rows: Seq<(Seq<char>, Seq<char>)>) -> Seq<char>
    decreases rows.len(),
{
    if rows.len() == 0 {
        seq![]
    } else if rows.len() == 1 {
        rows[0].0
    } else {
        text_of(rows.drop_last()) + seq!['\n'] + rows.last().0
    }
}

/// Relies on String::push: `c` is added at the end.
#[verifier::external_body]
fn push_char(s: &mut String, c: char)
    ensures
        final(s)@ == old(s)@.push(c),
{
    s.push(c)
}

/// Relies on String::pop: the last character is taken off, if there is one.
#[verifier::external_body]
fn pop_char(s: &mut String) -> (r: Option<char>)
    ensures
        old(s)@.len() == 0 ==> r is None && final(s)@ == old(s)@,
        old(s)@.len() > 0 ==> r == Some(old(s)@.last()) && final(s)@ == old(s)@.drop_last(),
{
    s.pop()
}

/// One editing session over a store of raw path strings.
pub struct App {
    /// The stored path strings, in the order they were added.
    pub raw_paths: Vec<String>,
    pub input_buffer: String,
    pub mode: InputMode,
    /// Index of the selected row, if any.
    pub selected: Option<usize>,
    /// The rendered rows: (display line, full path).
    pub tree_items: Vec<(String, String)>,
    pub status_message: String,
    /// While editing: what follows `edit_original_path/` in each detached entry.
    pub pending_children: Vec<String>,
    /// While editing: the path whose subtree was detached.
    pub edit_original_path: String,
}

impl App {
    /// The stored paths.
    pub open spec fn store(&self) -> Seq<Seq<char>> {
        strings_view(self.raw_paths@)
    }

    /// The rendered rows.
    pub open spec fn rows(&self) -> Seq<(Seq<char>, Seq<char>)> {
        rows_view(self.tree_items@)
    }

    /// The detached suffixes awaiting reattachment.
    pub open spec fn pending(&self) -> Seq<Seq<char>> {
        strings_view(self.pending_children@)
    }

    /// The rows are those of the store, the selection is within them, and
    /// only an edit holds detached entries.
    pub open spec fn wf(&self) -> bool {
        &&& rows_of_store(self.rows(), self.store())
        &&& cursor_ok(self.selected, self.tree_items@.len() as int)
        &&& self.mode != InputMode::Edit ==> self.pending_children@.len() == 0
            && self.edit_original_path@.len() == 0
    }

    /// The rows were rebuilt from the store and the selection `sel` clamped to them.
    pub open spec fn refreshed(&self, sel: Option<usize>) -> bool {
        &&& rows_of_store(self.rows(), self.store())
        &&& self.selected == clamped(sel, self.tree_items@.len() as int)
    }

    /// The full path of the selected row.
    pub open spec fn selected_path(&self) -> Option<Seq<char>> {
        match self.selected {
            Some(i) => if i < self.tree_items@.len() {
                Some(self.rows()[i as int].1)
            } else {
                None
            },
            None => None,
        }
    }

    /// A session over `initial_paths`, with the first row selected if there is one.
    pub fn new(initial_paths: Vec<String>) -> (r: App)
        ensures
            r.wf(),
            r.store() == strings_view(initial_paths@),
            r.refreshed(None),
            r.mode == InputMode::Normal,
            r.input_buffer@.len() == 0,
    {
        let mut app = App {
            raw_paths: initial_paths,
            input_buffer: String::new(),
            mode: InputMode::Normal,
            selected: None,
            tree_items: Vec::new(),
            status_message: String::from_str("Ready. Press '?' for help."),
            pending_children: Vec::new(),
            edit_original_path: String::new(),
        };
        app.rebuild_tree();
        app
    }

    /// Rebuilds the rows from the store and clamps the selection to them.
    pub fn rebuild_tree(&mut self)
        ensures
            final(self).refreshed(old(self).selected),
            cursor_ok(final(self).selected, final(self).tree_items@.len() as int),
            final(self).raw_paths == old(self).raw_paths,
            final(self).input_buffer == old(self).input_buffer,
            final(self).mode == old(self).mode,
            final(self).status_message == old(self).status_message,
            final(self).pending_children == old(self).pending_children,
            final(self).edit_original_path == old(self).edit_original_path,
    {
        self.tree_items = build_rows(&self.raw_paths);
        let n = self.tree_items.len();
        self.selected = if n == 0 {
            None
        } else {
            match self.selected {
                None => Some(0),
                Some(i) => if i >= n { Some(n - 1) } else { Some(i) },
            }
        };
    }

    fn selected_row_path(&self) -> (r: Option<String>)
        ensures
            r is None <==> self.selected_path() is None,
            r is Some ==> self.selected_path() == Some(r->0@),
    {
        match self.selected {
            Some(i) => if i < self.tree_items.len() {
                Some(self.tree_items[i].1.clone())
            } else {
                None
            },
            None => None,
        }
    }

    /// Stores the input buffer when it is not blank once trimmed. While
    /// editing, the detached entries are reattached under it and the edit
    /// ends; otherwise the mode stays, for the next path. The buffer is cleared.
    pub fn add_path(&mut self)
        requires
            old(self).wf(),
        ensures
            final(self).wf(),
            trimmed(old(self).input_buffer@).len() == 0 ==> *final(self) == *old(self),
            trimmed(old(self).input_buffer@).len() > 0 ==> {
                &&& final(self).store() == old(self).store() + reattached(
                    old(self).input_buffer@,
                    old(self).pending(),
                )
                &&& final(self).refreshed(old(self).selected)
                &&& final(self).input_buffer@.len() == 0
                &&& final(self).pending_children@.len() == 0
                &&& final(self).edit_original_path@.len() == 0
                &&& final(self).mode == if old(self).mode == InputMode::Edit {
                    InputMode::Normal
                } else {
                    old(self).mode
                }
                &&& old(self).mode == InputMode::Edit ==> final(self).status_message@
                    == "Path and children renamed."@
            },
    {
        let t = trim_str(self.input_buffer.as_str());
        if t.is_empty() {
            return;
        }
        let new_path = self.input_buffer.clone();
        reattach(&mut self.raw_paths, new_path.as_str(), &self.pending_children);
        if self.mode == InputMode::Edit {
            self.pending_children.clear();
            self.edit_original_path = String::new();
            self.status_message = String::from_str("Path and children renamed.");
            self.mode = InputMode::Normal;
        } else {
            self.status_message = String::from_str("Path added. Type next or Esc to finish.");
        }
        self.input_buffer = String::new();
        self.rebuild_tree();
    }

    /// From normal mode with a row selected, asks for a confirmation of the
    /// delete; the data does not change.
    pub fn initiate_delete(&mut self)
        requires
            old(self).wf(),
        ensures
            final(self).wf(),
            final(self).mode == if old(self).mode == InputMode::Normal && old(self).selected is Some {
                InputMode::DeleteConfirm
            } else {
                old(self).mode
            },
            old(self).mode == InputMode::Normal && old(self).selected is None
                ==> final(self).status_message@ == "Nothing selected to delete."@,
            final(self).raw_paths == old(self).raw_paths,
            final(self).tree_items == old(self).tree_items,
            final(self).selected == old(self).selected,
            final(self).input_buffer == old(self).input_buffer,
    {
        if self.mode != InputMode::Normal {
            return;
        }
        if self.selected.is_some() {
            self.mode = InputMode::DeleteConfirm;
            self.status_message = String::from_str(
                "WARNING: Press 'd' again to CONFIRM delete, 'Esc' to cancel.",
            );
        } else {
            self.status_message = String::from_str("Nothing selected to delete.");
        }
    }

    /// Confirms a pending delete of the selected row's path `p`: the first
    /// entry equal to `p` goes if there is one, else every entry in the
    /// subtree of `p`. Back to normal mode.
    pub fn confirm_delete(&mut self)
        requires
            old(self).wf(),
        ensures
            final(self).wf(),
            old(self).mode != InputMode::DeleteConfirm ==> *final(self) == *old(self),
            old(self).mode == InputMode::DeleteConfirm ==> {
                &&& final(self).mode == InputMode::Normal
                &&& final(self).input_buffer == old(self).input_buffer
                &&& match old(self).selected_path() {
                    Some(p) => {
                        &&& final(self).store() == if old(self).store().contains(p) {
                            without_first(old(self).store(), p)
                        } else {
                            kept(old(self).store(), p)
                        }
                        &&& final(self).status_message@ == if old(self).store().contains(p) {
                            "Deleted: "@ + p
                        } else {
                            "Deleted hierarchy: "@ + p
                        }
                        &&& final(self).refreshed(old(self).selected)
                    },
                    None => {
                        &&& final(self).raw_paths == old(self).raw_paths
                        &&& final(self).tree_items == old(self).tree_items
                        &&& final(self).selected == old(self).selected
                    },
                }
            },
    {
        if self.mode != InputMode::DeleteConfirm {
            return;
        }
        match self.selected_row_path() {
            Some(full_path) => {
                let found = remove_exact(&mut self.raw_paths, full_path.as_str());
                if found {
                    self.status_message = String::from_str("Deleted: ").concat(full_path.as_str());
                } else {
                    remove_subtree(&mut self.raw_paths, full_path.as_str());
                    self.status_message = String::from_str("Deleted hierarchy: ").concat(
                        full_path.as_str(),
                    );
                }
                self.rebuild_tree();
            },
            None => {},
        }
        self.mode = InputMode::Normal;
    }

    /// Leaves a pending delete without changing anything else.
    pub fn cancel_delete(&mut self)
        requires
            old(self).wf(),
        ensures
            final(self).wf(),
            old(self).mode != InputMode::DeleteConfirm ==> *final(self) == *old(self),
            old(self).mode == InputMode::DeleteConfirm ==> final(self).mode == InputMode::Normal,
            final(self).raw_paths == old(self).raw_paths,
            final(self).tree_items == old(self).tree_items,
            final(self).selected == old(self).selected,
            final(self).input_buffer == old(self).input_buffer,
    {
        if self.mode != InputMode::DeleteConfirm {
            return;
        }
        self.mode = InputMode::Normal;
        self.status_message = String::from_str("Deletion cancelled.");
    }

    /// From normal mode with a row selected, whose path is `p`: detaches the
    /// entries equal to `p` or below it from the store, keeps what follows
    /// `p/` in each entry below, and starts editing `p`.
    pub fn edit_selected(&mut self)
        requires
            old(self).wf(),
        ensures
            final(self).wf(),
            (old(self).mode != InputMode::Normal || old(self).selected_path() is None) ==> *final(self)
                == *old(self),
            old(self).mode == InputMode::Normal && old(self).selected_path() is Some ==> {
                let p = old(self).selected_path()->0;
                &&& final(self).store() == kept(old(self).store(), p)
                &&& final(self).pending() == detached(old(self).store(), p)
                &&& final(self).edit_original_path@ == p
                &&& final(self).input_buffer@ == p
                &&& final(self).mode == InputMode::Edit
                &&& final(self).refreshed(old(self).selected)
            },
    {
        if self.mode != InputMode::Normal {
            return;
        }
        match self.selected_row_path() {
            Some(path_to_edit) => {
                self.pending_children = detach_below(&self.raw_paths, path_to_edit.as_str());
                remove_subtree(&mut self.raw_paths, path_to_edit.as_str());
                self.edit_original_path = path_to_edit.clone();
                self.rebuild_tree();
                self.status_message = String::from_str("Editing '").concat(
                    path_to_edit.as_str(),
                ).concat("'...");
                self.input_buffer = path_to_edit;
                self.mode = InputMode::Edit;
            },
            None => {},
        }
    }

    /// Ends an edit without renaming: the detached entries go back under
    /// the original path. The buffer is cleared.
    pub fn cancel_edit(&mut self)
        requires
            old(self).wf(),
        ensures
            final(self).wf(),
            old(self).mode != InputMode::Edit ==> *final(self) == *old(self),
            old(self).mode == InputMode::Edit ==> {
                &&& final(self).mode == InputMode::Normal
                &&& final(self).input_buffer@.len() == 0
                &&& final(self).pending_children@.len() == 0
                &&& final(self).edit_original_path@.len() == 0
                &&& if old(self).edit_original_path@.len() > 0 {
                    &&& final(self).store() == old(self).store() + reattached(
                        old(self).edit_original_path@,
                        old(self).pending(),
                    )
                    &&& final(self).refreshed(old(self).selected)
                } else {
                    &&& final(self).raw_paths == old(self).raw_paths
                    &&& final(self).tree_items == old(self).tree_items
                    &&& final(self).selected == old(self).selected
                }
            },
    {
        if self.mode != InputMode::Edit {
            return;
        }
        if !self.edit_original_path.as_str().is_empty() {
            let original = self.edit_original_path.clone();
            reattach(&mut self.raw_paths, original.as_str(), &self.pending_children);
            self.pending_children.clear();
            self.edit_original_path = String::new();
            self.rebuild_tree();
        } else {
            self.pending_children.clear();
        }
        self.mode = InputMode::Normal;
        self.input_buffer = String::new();
        self.status_message = String::from_str("Edit Cancelled.");
    }

    /// Moves the selection one row down, from the last row to the first.
    pub fn next(&mut self)
        requires
            old(self).wf(),
        ensures
            final(self).wf(),
            final(self).selected == if old(self).tree_items@.len() == 0 {
                old(self).selected
            } else {
                match old(self).selected {
                    Some(i) => Some(((i + 1) % (old(self).tree_items@.len() as int)) as usize),
                    None => Some(0usize),
                }
            },
            final(self).raw_paths == old(self).raw_paths,
            final(self).tree_items == old(self).tree_items,
            final(self).mode == old(self).mode,
            final(self).input_buffer == old(self).input_buffer,
    {
        let n = self.tree_items.len();
        if n == 0 {
            return;
        }
        self.selected = match self.selected {
            Some(i) => if i >= n - 1 {
                proof {
                    vstd::arithmetic::div_mod::lemma_mod_self_0(n as int);
                }
                Some(0)
            } else {
                proof {
                    vstd::arithmetic::div_mod::lemma_small_mod((i + 1) as nat, n as nat);
                }
                Some(i + 1)
            },
            None => Some(0),
        };
    }

    /// Moves the selection one row up, from the first row to the last.
    pub fn previous(&mut self)
        requires
            old(self).wf(),
        ensures
            final(self).wf(),
            final(self).selected == if old(self).tree_items@.len() == 0 {
                old(self).selected
            } else {
                match old(self).selected {
                    Some(i) => Some(
                        ((i + old(self).tree_items@.len() - 1) % (old(self).tree_items@.len() as int)) as usize,
                    ),
                    None => Some(0usize),
                }
            },
            final(self).raw_paths == old(self).raw_paths,
            final(self).tree_items == old(self).tree_items,
            final(self).mode == old(self).mode,
            final(self).input_buffer == old(self).input_buffer,
    {
        let n = self.tree_items.len();
        if n == 0 {
            return;
        }
        self.selected = match self.selected {
            Some(i) => if i == 0 {
                proof {
                    vstd::arithmetic::div_mod::lemma_small_mod((n - 1) as nat, n as nat);
                }
                Some(n - 1)
            } else {
                proof {
                    vstd::arithmetic::div_mod::lemma_mod_add_multiples_vanish((i - 1) as int, n as int);
                    vstd::arithmetic::div_mod::lemma_small_mod((i - 1) as nat, n as nat);
                }
                Some(i - 1)
            },
            None => Some(0),
        };
    }

    /// From normal mode, starts inserting paths with an empty buffer.
    pub fn begin_insert(&mut self)
        requires
            old(self).wf(),
        ensures
            final(self).wf(),
            old(self).mode != InputMode::Normal ==> *final(self) == *old(self),
            old(self).mode == InputMode::Normal ==> final(self).mode == InputMode::Insert
                && final(self).input_buffer@.len() == 0,
            final(self).raw_paths == old(self).raw_paths,
            final(self).tree_items == old(self).tree_items,
            final(self).selected == old(self).selected,
    {
        if self.mode != InputMode::Normal {
            return;
        }
        self.mode = InputMode::Insert;
        self.input_buffer = String::new();
        self.status_message = String::from_str("INSERT MODE: Type or Paste paths.");
    }

    /// Leaves insert mode; the buffer is cleared.
    pub fn finish_insert(&mut self)
        requires
            old(self).wf(),
        ensures
            final(self).wf(),
            old(self).mode != InputMode::Insert ==> *final(self) == *old(self),
            old(self).mode == InputMode::Insert ==> final(self).mode == InputMode::Normal
                && final(self).input_buffer@.len() == 0,
            final(self).raw_paths == old(self).raw_paths,
            final(self).tree_items == old(self).tree_items,
            final(self).selected == old(self).selected,
    {
        if self.mode != InputMode::Insert {
            return;
        }
        self.mode = InputMode::Normal;
        self.input_buffer = String::new();
        self.status_message = String::from_str("Done inserting.");
    }

    /// While inserting or editing, adds `c` at the end of the buffer.
    pub fn type_char(&mut self, c: char)
        requires
            old(self).wf(),
        ensures
            final(self).wf(),
            takes_text(old(self).mode) ==> final(self).input_buffer@ == old(self).input_buffer@.push(c),
            !takes_text(old(self).mode) ==> *final(self) == *old(self),
            final(self).mode == old(self).mode,
            final(self).raw_paths == old(self).raw_paths,
            final(self).tree_items == old(self).tree_items,
            final(self).selected == old(self).selected,
            final(self).pending_children == old(self).pending_children,
            final(self).edit_original_path == old(self).edit_original_path,
    {
        if self.mode == InputMode::Insert || self.mode == InputMode::Edit {
            push_char(&mut self.input_buffer, c);
        }
    }

    /// While inserting or editing, takes the last character off the buffer.
    pub fn erase_char(&mut self)
        requires
            old(self).wf(),
        ensures
            final(self).wf(),
            takes_text(old(self).mode) && old(self).input_buffer@.len() > 0 ==> final(self).input_buffer@
                == old(self).input_buffer@.drop_last(),
            !takes_text(old(self).mode) ==> *final(self) == *old(self),
            old(self).input_buffer@.len() == 0 ==> final(self).input_buffer@ == old(self).input_buffer@,
            final(self).mode == old(self).mode,
            final(self).raw_paths == old(self).raw_paths,
            final(self).tree_items == old(self).tree_items,
            final(self).selected == old(self).selected,
            final(self).pending_children == old(self).pending_children,
            final(self).edit_original_path == old(self).edit_original_path,
    {
        if self.mode == InputMode::Insert || self.mode == InputMode::Edit {
            let _ = pop_char(&mut self.input_buffer);
        }
    }

    /// The display lines of all rows, separated by newlines.
    pub fn tree_text(&self) -> (r: String)
        ensures
            r@ == text_of(self.rows()),
    {
        let n = self.tree_items.len();
        let ghost rows = self.rows();
        let mut out = String::new();
        let mut i: usize = 0;
        assert(rows.take(0) =~= seq![]);
        while i < n
            invariant
                n == self.tree_items@.len(),
                rows == self.rows(),
                i <= n,
                out@ == text_of(rows.take(i as int)),
            decreases n - i,
        {
            let ghost before = out@;
            if i > 0 {
                proof {
                    reveal_strlit("\n");
                }
                assert("\n"@ =~= seq!['\n']);
                out.append("\n");
                assert(out@ =~= before + seq!['\n']);
            }
            out.append(self.tree_items[i].0.as_str());
            assert(rows[i as int].0 == self.tree_items@[i as int].0@);
            if i == 0 {
                assert(before =~= seq![]);
                assert(rows.take(1)[0] == rows[0]);
            }
            assert(rows.take(i + 1).drop_last() =~= rows.take(i as int));
            assert(rows.take(i + 1).last() == rows[i as int]);
            assert(out@ =~= text_of(rows.take(i + 1)));
            i = i + 1;
        }
        assert(rows.take(n as int) =~= rows);
        out
    }
}

} // verus!
