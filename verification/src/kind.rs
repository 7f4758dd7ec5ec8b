//! The kinds of tree entry that an archive can hold.

use vstd::prelude::*;

verus! {

/// Kind of file that can be stored in the archive.
#[derive(Clone, Copy, Debug, PartialEq, Eq, Structural, PartialOrd, Ord, Hash)]
pub enum Kind {
    File,
    Dir,
    Symlink,
    /// Unknown file observed in a local tree. It is never stored.
    Unknown,
}

impl Kind {
    /// True for the kinds that an index may hold.
    pub fn is_storable(self) -> (r: bool)
        ensures
            r == (self != Kind::Unknown),
    {
        match self {
            Kind::Unknown => false,
            _ => true,
        }
    }
}

} // verus!
