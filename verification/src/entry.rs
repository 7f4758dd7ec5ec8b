//! What a tree entry has in common, whether it is read from a stored tree or
//! from a live one.

use vstd::prelude::*;
use crate::apath::Apath;
use crate::kind::Kind;

verus! {

/// A time of last modification: whole seconds since the Unix epoch, and the
/// nanoseconds beyond them.
#[derive(Clone, Copy, Debug, PartialEq, Eq, Structural)]
pub struct UnixTime {
    pub secs: i64,
    pub nanos: u32,
}

/// A description of one file, directory or symlink in a tree.
///
/// The functions whose names start with `spec_` are spoken of in contracts
/// only and are never run: an implementation that is not verified may give
/// them any body.
pub trait Entry {
    /// The path of the entry.
    spec fn spec_apath(&self) -> Apath;

    /// The kind of the entry.
    spec fn spec_kind(&self) -> Kind;

    /// When the entry was last modified.
    spec fn spec_mtime(&self) -> UnixTime;

    /// The size of a file's content in bytes; `None` for what is no file.
    spec fn spec_size(&self) -> Option<u64>;

    /// Where a symlink points; `None` for what is no symlink.
    spec fn spec_symlink_target(&self) -> Option<String>;

    /// The path of the entry.
    fn apath(&self) -> (r: &Apath)
        ensures
            *r == self.spec_apath(),
    ;

    /// The kind of the entry.
    fn kind(&self) -> (r: Kind)
        ensures
            r == self.spec_kind(),
    ;

    /// When the entry was last modified.
    fn mtime(&self) -> (r: UnixTime)
        ensures
            r == self.spec_mtime(),
    ;

    /// The size of a file's content in bytes; `None` for what is no file.
    fn size(&self) -> (r: Option<u64>)
        ensures
            r == self.spec_size(),
    ;

    /// Where a symlink points; `None` for what is no symlink.
    fn symlink_target(&self) -> (r: &Option<String>)
        ensures
            *r == self.spec_symlink_target(),
    ;

}

/// The kind, time of modification and size of one entry are those of another.
pub open spec fn unchanged(
    entry: (Kind, UnixTime, Option<u64>),
    basis: (Kind, UnixTime, Option<u64>),
) -> bool {
    entry == basis
}

/// True if the metadata supports an assumption that the file contents have
/// not changed: the kind, the time of modification and the size of `entry` are
/// those of `basis_entry`.
pub fn is_unchanged_from<E: Entry, O: Entry>(entry: &E, basis_entry: &O) -> (r: bool)
    ensures
        r == unchanged(
            (entry.spec_kind(), entry.spec_mtime(), entry.spec_size()),
            (basis_entry.spec_kind(), basis_entry.spec_mtime(), basis_entry.spec_size()),
        ),
{
    basis_entry.kind() == entry.kind() && basis_entry.mtime() == entry.mtime() && same_size(
        basis_entry.size(),
        entry.size(),
    )
}

/// True if both sizes are absent, or both are there and equal.
pub fn same_size(a: Option<u64>, b: Option<u64>) -> (r: bool)
    ensures
        r == (a == b),
{
    match (a, b) {
        (None, None) => true,
        (Some(x), Some(y)) => x == y,
        _ => false,
    }
}

} // verus!
