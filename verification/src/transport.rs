//! Filesystem abstraction to read and write local and remote archives.
//!
//! A transport has a root, which is typically the top directory of an
//! archive. Below it everything is named by a relative path, in which `/`
//! parts the names. The empty path names the root.
//!
//! Files in archives have bounded size and fit in memory, so a transport
//! reads and writes whole files only.
//!
//! What a transport holds is modelled as a [`Tree`]. The contract of each
//! operation says what its outcome tells about the tree, and how the tree
//! changes. No operation is promised to succeed.

use vstd::prelude::*;
use crate::kind::Kind;

verus! {

/// What a transport holds: the content of each file by its path, and the paths
/// of the directories. Files that are being written under a temporary name
/// are no part of it.
pub ghost struct Tree {
    pub files: Map<Seq<char>, Seq<u8>>,
    pub dirs: Set<Seq<char>>,
}

/// The path of `name` in the directory `dir`.
pub open spec fn join(dir: Seq<char>, name: Seq<char>) -> Seq<char> {
    if dir.len() == 0 {
        name
    } else if name.len() == 0 {
        dir
    } else {
        dir + seq!['/'] + name
    }
}

/// A name of one thing in a directory: not empty, and without a separator.
pub open spec fn is_name(name: Seq<char>) -> bool {
    name.len() > 0 && !name.contains('/')
}

/// `path` is `top` or lies below it.
pub open spec fn within(top: Seq<char>, path: Seq<char>) -> bool {
    ||| top.len() == 0
    ||| path == top
    ||| (path.len() > top.len() && path.take(top.len() as int) == top && path[top.len() as int]
        == '/')
}

impl Tree {
    /// A tree with nothing in it, not even its root.
    pub open spec fn empty() -> Tree {
        Tree { files: Map::empty(), dirs: Set::empty() }
    }

    /// There is a file at `path`.
    pub open spec fn has_file(self, path: Seq<char>) -> bool {
        self.files.contains_key(path)
    }

    /// There is a directory at `path`.
    pub open spec fn has_dir(self, path: Seq<char>) -> bool {
        self.dirs.contains(path)
    }

    /// There is a file or a directory at `path`.
    pub open spec fn has_any(self, path: Seq<char>) -> bool {
        self.has_file(path) || self.has_dir(path)
    }

    /// The tree with `content` in the file at `path`, in place of what was
    /// there.
    pub open spec fn with_file(self, path: Seq<char>, content: Seq<u8>) -> Tree {
        Tree { files: self.files.insert(path, content), dirs: self.dirs }
    }

    /// The tree without the file at `path`.
    pub open spec fn without_file(self, path: Seq<char>) -> Tree {
        Tree { files: self.files.remove(path), dirs: self.dirs }
    }

    /// The tree with a directory at `path`.
    pub open spec fn with_dir(self, path: Seq<char>) -> Tree {
        Tree { files: self.files, dirs: self.dirs.insert(path) }
    }

    /// The tree without the directory at `path`.
    pub open spec fn without_dir(self, path: Seq<char>) -> Tree {
        Tree { files: self.files, dirs: self.dirs.remove(path) }
    }

    /// The tree without `top` and all that lies below it.
    pub open spec fn without_all(self, top: Seq<char>) -> Tree {
        Tree {
            files: self.files.remove_keys(Set::new(|p: Seq<char>| within(top, p))),
            dirs: self.dirs.difference(Set::new(|p: Seq<char>| within(top, p))),
        }
    }

    /// What lies at and below `top`, named from `top`.
    pub open spec fn below(self, top: Seq<char>) -> Tree {
        Tree {
            files: Map::new(
                |p: Seq<char>| p.len() > 0 && self.files.contains_key(join(top, p)),
                |p: Seq<char>| self.files[join(top, p)],
            ),
            dirs: Set::new(|p: Seq<char>| self.dirs.contains(join(top, p))),
        }
    }

    /// Every file and directory of this tree is in `other` as it is here.
    pub open spec fn part_of(self, other: Tree) -> bool {
        &&& self.files.submap_of(other.files)
        &&& self.dirs.subset_of(other.dirs)
    }

    /// The two trees are the same outside `top`.
    pub open spec fn same_outside(self, other: Tree, top: Seq<char>) -> bool {
        &&& forall|p: Seq<char>|
            !within(top, p) ==> (self.files.contains_key(p) <==> other.files.contains_key(p))
        &&& forall|p: Seq<char>|
            !within(top, p) && self.files.contains_key(p) ==> self.files[p] == other.files[p]
        &&& forall|p: Seq<char>| !within(top, p) ==> (self.dirs.contains(p) <==> other.dirs.contains(p))
    }
}

/// A part of a part of a tree is a part of the tree.
pub proof fn lemma_part_of_part(a: Tree, b: Tree, c: Tree)
    requires
        a.part_of(b),
        b.part_of(c),
    ensures
        a.part_of(c),
{
    vstd::map_lib::lemma_submap_of_trans(a.files, b.files, c.files);
    assert forall|p: Seq<char>| a.dirs.contains(p) implies c.dirs.contains(p) by {
        assert(b.dirs.contains(p));
    }
}

/// Why an operation of a transport failed.
#[derive(Clone, Copy, Debug, PartialEq, Eq, Structural)]
pub enum ErrorKind {
    /// There is nothing at the path.
    NotFound,
    /// There is something at the path already.
    AlreadyExists,
    /// Anything else.
    Other,
}

/// A failed operation of a transport.
#[derive(Debug, PartialEq, Eq)]
pub struct TransportError {
    /// Why it failed.
    pub kind: ErrorKind,
    /// The path it was about.
    pub path: String,
    /// What the storage said.
    pub message: String,
}

impl Clone for TransportError {
    fn clone(&self) -> (r: TransportError)
        ensures
            r.kind == self.kind,
            r.path@ == self.path@,
            r.message@ == self.message@,
    {
        TransportError {
            kind: self.kind,
            path: self.path.clone(),
            message: self.message.clone(),
        }
    }
}

impl TransportError {
    /// An error of the given kind about `path`.
    pub fn new(kind: ErrorKind, path: &str, message: &str) -> (r: TransportError)
        ensures
            r.kind == kind,
            r.path@ == path@,
            r.message@ == message@,
    {
        TransportError { kind, path: path.to_owned(), message: message.to_owned() }
    }

    /// True if the operation failed because there is nothing at the path.
    pub fn is_not_found(&self) -> (r: bool)
        ensures
            r == (self.kind == ErrorKind::NotFound),
    {
        self.kind == ErrorKind::NotFound
    }
}

/// What a transport knows of a file or directory.
#[derive(Clone, Copy, Debug, PartialEq, Eq, Structural)]
pub struct Metadata {
    /// The kind of the thing.
    pub kind: Kind,
    /// The length of a file in bytes.
    pub len: u64,
}

/// A directory entry read from a transport.
#[derive(Clone, Debug, PartialEq, Eq, PartialOrd, Ord)]
pub struct DirEntry {
    /// Name of the file within the directory being listed.
    pub name: String,
    pub kind: Kind,
    /// Size in bytes.
    pub len: u64,
}

/// The names of the files and of the directories in one directory.
#[derive(Debug, PartialEq, Eq)]
pub struct ListDir {
    pub files: Vec<String>,
    pub dirs: Vec<String>,
}

/// The texts of strings.
pub open spec fn texts(names: Seq<String>) -> Seq<Seq<char>> {
    Seq::new(names.len(), |i: int| names[i]@)
}

/// `names` are the names of what `present` finds in `dir`: each of them once,
/// and all of them.
pub open spec fn names_in(
    names: Seq<Seq<char>>,
    dir: Seq<char>,
    present: spec_fn(Seq<char>) -> bool,
) -> bool {
    &&& forall|i: int| 0 <= i < names.len() ==> is_name(#[trigger] names[i]) && present(join(dir, names[i]))
    &&& forall|i: int, j: int| 0 <= i < j < names.len() ==> names[i] != names[j]
    &&& forall|n: Seq<char>| is_name(n) && present(join(dir, n)) ==> names.contains(n)
}

/// `list` is what the directory `dir` of `tree` holds.
pub open spec fn lists(tree: Tree, dir: Seq<char>, list: ListDir) -> bool {
    &&& names_in(texts(list.files@), dir, |p: Seq<char>| tree.has_file(p))
    &&& names_in(texts(list.dirs@), dir, |p: Seq<char>| tree.has_dir(p))
}

/// What `meta` tells of `path` holds in `tree`: a file, and nothing else, is
/// said to be a file, with its length; what is said to be a directory is one.
pub open spec fn describes(tree: Tree, path: Seq<char>, meta: Metadata) -> bool {
    &&& meta.kind == Kind::File <==> tree.has_file(path)
    &&& meta.kind == Kind::File ==> meta.len == tree.files[path].len()
    &&& meta.kind == Kind::Dir ==> tree.has_dir(path)
}

/// Abstracted filesystem I/O to access an archive.
///
/// This supports operations that are common across local filesystems, SFTP
/// and cloud storage, and that are meant to be enough to implement the
/// archive format well.
///
/// `tree`, `inv` and `steady` are spoken of in contracts only and are never
/// run: an implementation that is not verified may give them any body.
pub trait Transport: Sized {
    /// What the transport holds.
    spec fn tree(&self) -> Tree;

    /// True of a kind of transport on which nothing fails but for want of
    /// what is asked for: it lists, writes, creates and clears without fail,
    /// and it reads, describes and removes whatever is there. Storage in
    /// memory is steady. A disk or a network is not: of a transport that is
    /// not steady, an operation may fail at any time.
    spec fn steady() -> bool;

    /// The transport is in order within. Every operation keeps it so.
    spec fn inv(&self) -> bool;

    /// Lists what is directly in a directory, in any order. `.` and `..` are
    /// not listed, nor are files under temporary names.
    fn list_dir(&self, relpath: &str) -> (r: Result<ListDir, TransportError>)
        requires
            self.inv(),
        ensures
            r matches Ok(list) ==> lists(self.tree(), relpath@, list),
            Self::steady() ==> r is Ok,
    ;

    /// Reads one complete file.
    fn read_file(&self, relpath: &str) -> (r: Result<Vec<u8>, TransportError>)
        requires
            self.inv(),
        ensures
            match r {
                Ok(content) => self.tree().has_file(relpath@) && content@
                    == self.tree().files[relpath@],
                Err(e) => e.kind == ErrorKind::NotFound ==> !self.tree().has_file(relpath@),
            },
            Self::steady() ==> (r is Ok <==> self.tree().has_file(relpath@)),
            Self::steady() ==> (r matches Err(e) ==> e.kind == ErrorKind::NotFound),
    ;

    /// Writes a complete file, in place of any file that is there.
    ///
    /// The file is published at once: it is there with all of `content`, or
    /// the tree is as it was. An implementation that writes under another
    /// name first gives that name the prefix for temporary files.
    fn write_file(&mut self, relpath: &str, content: &[u8]) -> (r: Result<(), TransportError>)
        requires
            old(self).inv(),
        ensures
            final(self).inv(),
            match r {
                Ok(_) => final(self).tree() == old(self).tree().with_file(relpath@, content@),
                Err(_) => final(self).tree() == old(self).tree(),
            },
            Self::steady() ==> r is Ok,
    ;

    /// Creates a directory, if it is not there. That it is there already is
    /// no error. Missing parents are not created.
    fn create_dir(&mut self, relpath: &str) -> (r: Result<(), TransportError>)
        requires
            old(self).inv(),
        ensures
            final(self).inv(),
            match r {
                Ok(_) => final(self).tree() == old(self).tree().with_dir(relpath@),
                Err(_) => final(self).tree() == old(self).tree(),
            },
            Self::steady() ==> r is Ok,
    ;

    /// Tells the kind of what is at a path, and the length of a file.
    fn metadata(&self, relpath: &str) -> (r: Result<Metadata, TransportError>)
        requires
            self.inv(),
        ensures
            match r {
                Ok(meta) => describes(self.tree(), relpath@, meta),
                Err(e) => e.kind == ErrorKind::NotFound ==> !self.tree().has_file(relpath@)
                    && !self.tree().has_dir(relpath@),
            },
            Self::steady() ==> (r is Ok <==> self.tree().has_any(relpath@)),
            Self::steady() ==> (r matches Err(e) ==> e.kind == ErrorKind::NotFound),
    ;

    /// Removes a file.
    fn remove_file(&mut self, relpath: &str) -> (r: Result<(), TransportError>)
        requires
            old(self).inv(),
        ensures
            final(self).inv(),
            match r {
                Ok(_) => final(self).tree() == old(self).tree().without_file(relpath@),
                Err(_) => final(self).tree() == old(self).tree(),
            },
            Self::steady() ==> (r is Ok <==> old(self).tree().has_file(relpath@)),
            Self::steady() ==> (r matches Err(e) ==> e.kind == ErrorKind::NotFound),
    ;

    /// Removes a directory that holds nothing.
    fn remove_dir(&mut self, relpath: &str) -> (r: Result<(), TransportError>)
        requires
            old(self).inv(),
        ensures
            final(self).inv(),
            match r {
                Ok(_) => final(self).tree() == old(self).tree().without_dir(relpath@),
                Err(_) => final(self).tree() == old(self).tree(),
            },
            Self::steady() ==> (r is Ok <==> old(self).tree().has_dir(relpath@)),
            Self::steady() ==> (r matches Err(e) ==> e.kind == ErrorKind::NotFound),
    ;

    /// Removes a directory and all that lies below it. Where that fails, some
    /// of it may be gone.
    fn remove_dir_all(&mut self, relpath: &str) -> (r: Result<(), TransportError>)
        requires
            old(self).inv(),
        ensures
            final(self).inv(),
            match r {
                Ok(_) => final(self).tree() == old(self).tree().without_all(relpath@),
                Err(_) => {
                    &&& final(self).tree().part_of(old(self).tree())
                    &&& final(self).tree().same_outside(old(self).tree(), relpath@)
                },
            },
            Self::steady() ==> r is Ok,
    ;

    /// Makes a transport for a directory of this one. What is reached through
    /// one of the two is not to be reached through the other.
    fn sub_transport(&self, relpath: &str) -> (r: Self)
        requires
            self.inv(),
        ensures
            r.inv(),
            r.tree() == self.tree().below(relpath@),
    ;
}

/// True if there is a file at the path.
pub fn is_file<T: Transport>(transport: &T, relpath: &str) -> (r: Result<bool, TransportError>)
    requires
        transport.inv(),
    ensures
        r matches Ok(found) ==> found == transport.tree().has_file(relpath@),
        r matches Err(e) ==> e.kind != ErrorKind::NotFound,
        T::steady() ==> r is Ok,
{
    match transport.metadata(relpath) {
        Ok(meta) => Ok(meta.kind == Kind::File),
        Err(e) => if e.is_not_found() {
            Ok(false)
        } else {
            Err(e)
        },
    }
}

} // verus!
