//! The record of one archived file: its archive-relative path and size.
use vstd::prelude::*;

verus! {

/// Archive-relative path and size in bytes of one regular file.
#[derive(Debug, Clone)]
pub struct FileEntry {
    path: String,
    size: usize,
}

impl FileEntry {
    /// The path as characters.
    pub closed spec fn path_spec(&self) -> Seq<char> {
        self.path@
    }

    /// The size in bytes.
    pub closed spec fn size_spec(&self) -> nat {
        self.size as nat
    }

    /// A size always fits a `usize`.
    pub proof fn lemma_size_fits(&self)
        ensures
            self.size_spec() <= usize::MAX,
    {
    }

    pub fn new(path: String, size: usize) -> (r: FileEntry)
        ensures
            r.path_spec() == path@,
            r.size_spec() == size,
    {
        FileEntry { path, size }
    }

    pub fn path(&self) -> (r: &str)
        ensures
            r@ == self.path_spec(),
    {
        self.path.as_str()
    }

    pub fn size(&self) -> (r: usize)
        ensures
            r == self.size_spec(),
    {
        self.size
    }
}

} // verus!
