//! Where files that the user edits are placed.

use vstd::prelude::*;

use crate::outside::{join_path, joined_path};

verus! {

/// Placement of data files that belong to a repository.
pub trait GitDirDataOps {
    /// Where the data file `path` is placed.
    spec fn data_file_spec(&self, path: Seq<char>) -> Seq<char>;

    /// The path of the data file `path`.
    fn git_data_file(&self, path: &str) -> (r: String)
        ensures
            r@ == self.data_file_spec(path@),
    ;
}

/// A repository's control directory, and whether edited files are placed in
/// the current directory instead.
pub struct GitDir {
    pub path: String,
    pub edit_in_cwd: bool,
}

impl GitDir {
    /// `path` as it is when files are edited in the current directory, else
    /// `path` inside the control directory.
    pub fn data_file_path(&self, path: &str) -> (r: String)
        ensures
            r@ == if self.edit_in_cwd {
                path@
            } else {
                joined_path(self.path@, path@)
            },
    {
        if self.edit_in_cwd {
            path.to_owned()
        } else {
            join_path(self.path.as_str(), path)
        }
    }
}

impl GitDirDataOps for GitDir {
    open spec fn data_file_spec(&self, path: Seq<char>) -> Seq<char> {
        if self.edit_in_cwd {
            path
        } else {
            joined_path(self.path@, path)
        }
    }

    fn git_data_file(&self, path: &str) -> (r: String) {
        self.data_file_path(path)
    }
}

} // verus!
