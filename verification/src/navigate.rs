//! The presentation layer's cursor into the tree: which directory is being
//! viewed and which row is selected. "Enter" moves into a selected child
//! when it is a directory; "back" moves to the parent, or signals exit at
//! the root.

use crate::file_directory::FileDirectory;
use vstd::prelude::*;

verus! {

broadcast use vstd::std_specs::vec::group_vec_axioms, vstd::seq::group_seq_axioms;

/// A cursor: the index path of the viewed directory and the selected row.
pub struct Navigator {
    pub path: Vec<usize>,
    pub selected: Option<usize>,
}

impl Navigator {
    /// Start at the root with the first row selected.
    pub fn new() -> (nav: Self)
        ensures
            nav.path@.len() == 0,
            nav.selected == Some(0usize),
    {
        Navigator { path: Vec::new(), selected: Some(0) }
    }

    /// Move to the parent directory, selecting the row the viewed directory
    /// occupied there; at the root, change nothing and signal exit.
    pub fn back(&mut self) -> (exited: bool)
        ensures
            exited == (old(self).path@.len() == 0),
            exited ==> *final(self) == *old(self),
            !exited ==> final(self).path@ == old(self).path@.drop_last() && final(self).selected
                == Some(old(self).path@.last()),
    {
        if self.path.len() == 0 {
            true
        } else {
            if let Some(i) = self.path.pop() {
                self.selected = Some(i);
            }
            false
        }
    }

    /// Enter the selected child when there is one and it is a directory,
    /// selecting its first row; otherwise change nothing. The cursor keeps
    /// pointing at a reachable node.
    pub fn open_selected_dir(&mut self, root: &FileDirectory)
        requires
            root.valid_path(old(self).path@),
        ensures
            root.valid_path(final(self).path@),
            match old(self).selected {
                Some(i) => {
                    if i < root.node_at(old(self).path@).entries@.len() && root.node_at(
                        old(self).path@,
                    ).entries@[i as int].is_dir {
                        final(self).path@ == old(self).path@.push(i) && final(self).selected
                            == Some(0usize)
                    } else {
                        *final(self) == *old(self)
                    }
                },
                None => *final(self) == *old(self),
            },
    {
        if let Some(i) = self.selected {
            proof {
                assert(self.path@.skip(0) =~= self.path@);
            }
            let node = root.get_at(&self.path, 0);
            if i < node.entries.len() {
                if node.entries[i].is_dir {
                    proof {
                        root.lemma_valid_path_push(self.path@, i);
                    }
                    self.path.push(i);
                    self.selected = Some(0);
                }
            }
        }
    }

    /// Move the selection one row down, holding at the last row of the
    /// viewed directory.
    pub fn next_row(&mut self, root: &FileDirectory)
        requires
            root.valid_path(old(self).path@),
        ensures
            final(self).path@ == old(self).path@,
            match old(self).selected {
                Some(s) => final(self).selected == if s + 1 < root.node_at(
                    old(self).path@,
                ).entries@.len() {
                    Some((s + 1) as usize)
                } else {
                    Some(s)
                },
                None => final(self).selected == old(self).selected,
            },
    {
        if let Some(s) = self.selected {
            proof {
                assert(self.path@.skip(0) =~= self.path@);
            }
            let node = root.get_at(&self.path, 0);
            let len = node.entries.len();
            if len > 0 && s < len - 1 {
                self.selected = Some(s + 1);
            }
        }
    }

    /// Move the selection one row up, holding at the first row.
    pub fn previous_row(&mut self)
        ensures
            final(self).path@ == old(self).path@,
            match old(self).selected {
                Some(s) => final(self).selected == if s > 0 {
                    Some((s - 1) as usize)
                } else {
                    Some(s)
                },
                None => final(self).selected == old(self).selected,
            },
    {
        if let Some(s) = self.selected {
            if s > 0 {
                self.selected = Some(s - 1);
            }
        }
    }
}

} // verus!
