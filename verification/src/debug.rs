//! A transport that stands in front of another, and can say what is asked of
//! it.

use vstd::prelude::*;
use vstd::string::StringExecFns;
use crate::transport::ListDir;
use crate::transport::Metadata;
use crate::transport::Transport;
use crate::transport::TransportError;
use crate::transport::Tree;

verus! {

/// Names with separators between them.
pub open spec fn joined_names(names: Seq<Seq<char>>) -> Seq<char>
    decreases names.len(),
{
    if names.len() == 0 {
        Seq::empty()
    } else if names.len() == 1 {
        names[0]
    } else {
        joined_names(names.drop_last()) + seq!['/'] + names.last()
    }
}

/// Hands every operation on to another transport. It keeps track of where it
/// is rooted, for a description of each operation.
pub struct DebugTransport<T: Transport> {
    path: Vec<String>,
    path_text: String,
    inner: T,
}

impl<T: Transport> DebugTransport<T> {
    /// The directories through which this transport was reached, from the
    /// first transport down.
    pub closed spec fn location(&self) -> Seq<Seq<char>> {
        crate::transport::texts(self.path@)
    }

    /// The text of the location, kept for descriptions.
    pub closed spec fn location_text(&self) -> Seq<char> {
        self.path_text@
    }

    /// A transport in front of `inner`.
    pub fn new(inner: T) -> (r: Self)
        requires
            inner.inv(),
        ensures
            r.inv(),
            r.tree() == inner.tree(),
            r.location().len() == 0,
    {
        let r = Self { inner, path: Vec::new(), path_text: String::new() };
        assert(joined_names(r.location()) =~= r.path_text@);
        r
    }

    /// The transport behind this one.
    pub fn into_inner(self) -> (r: T)
        ensures
            r.tree() == self.tree(),
            self.inv() ==> r.inv(),
    {
        self.inner
    }

    /// Describes an operation on a path, for a log: the name of the
    /// operation, a colon, and the path from the first transport down.
    pub fn describe(&self, operation: &str, relpath: &str) -> (r: String)
        ensures
            r@ == operation@ + ": "@ + self.location_text() + "/"@ + relpath@,
    {
        let mut out = String::from_str(operation);
        out.append(": ");
        out.append(self.path_text.as_str());
        out.append("/");
        out.append(relpath);
        assert(out@ =~= operation@ + ": "@ + self.location_text() + "/"@ + relpath@);
        out
    }
}

impl<T: Transport> Transport for DebugTransport<T> {
    closed spec fn tree(&self) -> Tree {
        self.inner.tree()
    }

    open spec fn steady() -> bool {
        T::steady()
    }

    closed spec fn inv(&self) -> bool {
        self.inner.inv() && joined_names(crate::transport::texts(self.path@)) == self.path_text@
    }

    fn list_dir(&self, relpath: &str) -> (r: Result<ListDir, TransportError>) {
        self.inner.list_dir(relpath)
    }

    fn read_file(&self, relpath: &str) -> (r: Result<Vec<u8>, TransportError>) {
        self.inner.read_file(relpath)
    }

    fn write_file(&mut self, relpath: &str, content: &[u8]) -> (r: Result<(), TransportError>)
        ensures
            final(self).location() == old(self).location(),
    {
        self.inner.write_file(relpath, content)
    }

    fn create_dir(&mut self, relpath: &str) -> (r: Result<(), TransportError>)
        ensures
            final(self).location() == old(self).location(),
    {
        self.inner.create_dir(relpath)
    }

    fn metadata(&self, relpath: &str) -> (r: Result<Metadata, TransportError>) {
        self.inner.metadata(relpath)
    }

    fn remove_file(&mut self, relpath: &str) -> (r: Result<(), TransportError>)
        ensures
            final(self).location() == old(self).location(),
    {
        self.inner.remove_file(relpath)
    }

    fn remove_dir(&mut self, relpath: &str) -> (r: Result<(), TransportError>)
        ensures
            final(self).location() == old(self).location(),
    {
        self.inner.remove_dir(relpath)
    }

    fn remove_dir_all(&mut self, relpath: &str) -> (r: Result<(), TransportError>)
        ensures
            final(self).location() == old(self).location(),
    {
        self.inner.remove_dir_all(relpath)
    }

    fn sub_transport(&self, relpath: &str) -> (r: Self)
        ensures
            r.location() == self.location().push(relpath@),
    {
        let mut path = self.path.clone();
        let ghost before = crate::transport::texts(self.path@);
        assert(crate::transport::texts(path@) =~= before);
        path.push(relpath.to_owned());
        let mut path_text = self.path_text.clone();
        if self.path.len() > 0 {
            proof {
                reveal_strlit("/");
            }
            path_text.append("/");
        }
        path_text.append(relpath);
        proof {
            let after = crate::transport::texts(path@);
            assert(after =~= before.push(relpath@));
            assert(after.drop_last() =~= before);
            assert(after.last() == relpath@);
            if before.len() == 0 {
                assert(self.path_text@ =~= Seq::<char>::empty());
                assert(path_text@ =~= relpath@);
                assert(joined_names(after) == after[0]);
            } else {
                reveal_strlit("/");
                assert(joined_names(after) == joined_names(before) + seq!['/'] + relpath@);
                assert(path_text@ =~= self.path_text@ + seq!['/'] + relpath@);
            }
            assert(joined_names(after) == path_text@);
        }
        DebugTransport { inner: self.inner.sub_transport(relpath), path_text, path }
    }
}

} // verus!
