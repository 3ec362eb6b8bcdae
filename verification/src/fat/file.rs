//! Files: directory entries known to carry the Archive attribute.

use vstd::prelude::*;

use crate::fat::dir::DirEntry;

verus! {

/// A directory entry wrapped as a plain file.
#[derive(Clone, PartialEq, Eq, Debug)]
#[verifier::ext_equal]
pub struct File {
    /// The file's directory entry.
    pub inner: DirEntry,
}

impl File {
    /// Wraps a directory entry as a file.
    pub fn new(inner: DirEntry) -> (r: Self)
        ensures
            r.inner == inner,
    {
        File { inner }
    }
}

} // verus!
