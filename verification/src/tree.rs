//! The entries of the discovery tree.

use vstd::prelude::*;
use vstd::std_specs::convert::FromSpecImpl;
use vstd::string::*;

use crate::order::{path_order, PartName};
use crate::path::{file_name_of, path_text, relative_path_text, PathView, TreePath};
use crate::sort::Keyed;
use crate::text::{name_text, text_of_name};

verus! {

/// What the file system says a file is.
#[derive(Clone, Copy, Debug, PartialEq, Eq, Structural)]
pub struct FileType {
    pub is_dir: bool,
    pub is_file: bool,
    pub is_symlink: bool,
}

/// What an entry of the tree is.
#[derive(Clone, Copy, Debug, PartialEq, Eq, Structural)]
pub enum TreeEntryKind {
    Directory,
    File,
    Symlink,
    Other,
}

/// What an entry with the given file type is.
pub open spec fn kind_of(file_type: FileType) -> TreeEntryKind {
    if file_type.is_dir {
        TreeEntryKind::Directory
    } else if file_type.is_file {
        TreeEntryKind::File
    } else if file_type.is_symlink {
        TreeEntryKind::Symlink
    } else {
        TreeEntryKind::Other
    }
}

impl From<FileType> for TreeEntryKind {
    fn from(file_type: FileType) -> (kind: Self) {
        if file_type.is_dir {
            TreeEntryKind::Directory
        } else if file_type.is_file {
            TreeEntryKind::File
        } else if file_type.is_symlink {
            TreeEntryKind::Symlink
        } else {
            TreeEntryKind::Other
        }
    }
}

impl FromSpecImpl<FileType> for TreeEntryKind {
    open spec fn obeys_from_spec() -> bool {
        true
    }

    open spec fn from_spec(file_type: FileType) -> Self {
        kind_of(file_type)
    }
}

/// An entry of the tree: a directory, or a file that is to be read.
#[derive(Clone, Debug)]
pub struct TreeEntry {
    pub relative_path: TreePath,
    pub depth: usize,
    pub kind: TreeEntryKind,
}

/// What a [`TreeEntry`] says.
pub struct TreeEntryView {
    pub path: PathView,
    pub depth: usize,
    pub kind: TreeEntryKind,
}

impl View for TreeEntry {
    type V = TreeEntryView;

    open spec fn view(&self) -> TreeEntryView {
        TreeEntryView { path: self.relative_path@, depth: self.depth, kind: self.kind }
    }
}

/// The mark that shows what an entry is.
pub open spec fn kind_mark(kind: TreeEntryKind) -> Seq<char> {
    match kind {
        TreeEntryKind::Directory => "/"@,
        TreeEntryKind::Symlink => "@"@,
        TreeEntryKind::Other => "?"@,
        TreeEntryKind::File => Seq::empty(),
    }
}

/// The name under which an entry is shown: its file name, or where it has none
/// its whole path, and the mark of its kind.
pub open spec fn shown_name(entry: TreeEntryView) -> Seq<char> {
    (match file_name_of(entry.path) {
        Some(name) => text_of_name(name, entry.path.encoding),
        None => path_text(entry.path),
    }) + kind_mark(entry.kind)
}

impl TreeEntry {
    /// The name under which the entry is shown.
    pub fn display_name(&self) -> (result: String)
        ensures
            result@ == shown_name(self@),
    {
        let mut name = match self.relative_path.file_name() {
            Some(value) => name_text(value.as_slice(), self.relative_path.encoding),
            None => relative_path_text(&self.relative_path),
        };
        match self.kind {
            TreeEntryKind::Directory => name.append("/"),
            TreeEntryKind::Symlink => name.append("@"),
            TreeEntryKind::Other => name.append("?"),
            TreeEntryKind::File => {},
        }
        name
    }
}

impl Keyed for TreeEntry {
    type Key = Seq<PartName>;

    open spec fn key(value: TreeEntryView) -> Seq<PartName> {
        value.path.names()
    }

    open spec fn order() -> spec_fn(Seq<PartName>, Seq<PartName>) -> bool {
        path_order()
    }

    proof fn order_is_strict_and_total() {
        crate::order::path_order_is_strict_and_total();
    }

    fn precedes(&self, other: &TreeEntry) -> (result: bool) {
        self.relative_path.path_precedes(&other.relative_path)
    }
}

} // verus!
