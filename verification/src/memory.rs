//! A transport that keeps its files in memory.
//!
//! It serves to try out the rest of the library, and shows that what
//! [`Transport`] asks for can be had. A transport for a directory of another
//! is a copy of what that directory held when it was made.

use vstd::prelude::*;
use vstd::string::StrSliceExecFns;
use crate::kind::Kind;
use crate::transport::ErrorKind;
use crate::transport::ListDir;
use crate::transport::Metadata;
use crate::transport::Transport;
use crate::transport::TransportError;
use crate::transport::Tree;

verus! {

/// The characters of a string.
pub fn chars_of(s: &str) -> (r: Vec<char>)
    ensures
        r@ == s@,
{
    let n = s.unicode_len();
    let mut out: Vec<char> = Vec::new();
    let mut i: usize = 0;
    while i < n
        invariant
            n == s@.len(),
            i <= n,
            out@ == s@.take(i as int),
        decreases n - i,
    {
        out.push(s.get_char(i));
        assert(s@.take(i as int + 1) =~= s@.take(i as int).push(s@[i as int]));
        i = i + 1;
    }
    assert(s@.take(n as int) =~= s@);
    out
}

/// True if `path` starts with all of `top`.
fn starts_with(path: &Vec<char>, top: &Vec<char>) -> (r: bool)
    ensures
        r == (path@.len() >= top@.len() && path@.take(top@.len() as int) == top@),
{
    if path.len() < top.len() {
        return false;
    }
    let mut i: usize = 0;
    while i < top.len()
        invariant
            i <= top.len(),
            top.len() <= path.len(),
            path@.take(i as int) == top@.take(i as int),
        decreases top.len() - i,
    {
        if path[i] != top[i] {
            assert(path@.take(top@.len() as int)[i as int] == path@[i as int]);
            return false;
        }
        assert(path@.take(i as int + 1) =~= path@.take(i as int).push(path@[i as int]));
        assert(top@.take(i as int + 1) =~= top@.take(i as int).push(top@[i as int]));
        i = i + 1;
    }
    assert(top@.take(top@.len() as int) =~= top@);
    true
}

/// True if `path` is `top` or lies below it.
pub fn is_within(top: &Vec<char>, path: &Vec<char>) -> (r: bool)
    ensures
        r == crate::transport::within(top@, path@),
{
    if top.len() == 0 {
        return true;
    }
    if !starts_with(path, top) {
        assert(path@ != top@) by {
            if path@ == top@ {
                assert(path@.take(top@.len() as int) =~= top@);
            }
        }
        return false;
    }
    if path.len() == top.len() {
        assert(path@.take(top@.len() as int) =~= path@);
        true
    } else {
        assert(path@ != top@);
        path[top.len()] == '/'
    }
}

/// True if there is no separator in `path` from `from` on.
fn no_separator_from(path: &Vec<char>, from: usize) -> (r: bool)
    requires
        from <= path@.len(),
    ensures
        r == !path@.skip(from as int).contains('/'),
{
    let ghost rest = path@.skip(from as int);
    let mut i: usize = from;
    while i < path.len()
        invariant
            from <= i <= path.len(),
            rest == path@.skip(from as int),
            forall|k: int| 0 <= k < i - from ==> rest[k] != '/',
        decreases path.len() - i,
    {
        if path[i] == '/' {
            assert(rest[i - from] == '/');
            return false;
        }
        i = i + 1;
    }
    true
}

/// Where in `path` the name begins of what `path` names in the directory
/// `dir`, if it names something in that directory itself.
pub fn child_start(dir: &Vec<char>, path: &Vec<char>) -> (r: Option<usize>)
    ensures
        match r {
            Some(k) => {
                &&& k <= path@.len()
                &&& crate::transport::is_name(path@.skip(k as int))
                &&& path@ == crate::transport::join(dir@, path@.skip(k as int))
            },
            None => forall|name: Seq<char>|
                crate::transport::is_name(name) ==> path@ != #[trigger] crate::transport::join(
                    dir@,
                    name,
                ),
        },
{
    if dir.len() == 0 {
        assert(path@.skip(0) =~= path@);
        if path.len() > 0 && no_separator_from(path, 0) {
            Some(0)
        } else {
            None
        }
    } else {
        if path.len() > dir.len() && path.len() - dir.len() > 1 && starts_with(path, dir)
            && path[dir.len()] == '/' && no_separator_from(path, dir.len() + 1) {
            let k = dir.len() + 1;
            assert(path@ =~= dir@ + seq!['/'] + path@.skip(k as int));
            Some(k)
        } else {
            assert forall|name: Seq<char>|
                crate::transport::is_name(name) implies path@ != #[trigger] crate::transport::join(
                dir@,
                name,
            ) by {
                let joined = crate::transport::join(dir@, name);
                if path@ == joined {
                    assert(joined == dir@ + seq!['/'] + name);
                    assert(joined.take(dir@.len() as int) =~= dir@);
                    assert(joined[dir@.len() as int] == '/');
                    assert(joined.skip(dir@.len() as int + 1) =~= name);
                }
            }
            None
        }
    }
}

/// A file held in memory.
#[derive(Debug)]
pub struct MemoryFile {
    pub path: String,
    pub content: Vec<u8>,
}

/// The paths of files.
pub open spec fn file_paths(files: Seq<MemoryFile>) -> Seq<Seq<char>> {
    Seq::new(files.len(), |i: int| files[i].path@)
}

/// `paths` lists `set`: each member once, and nothing else.
pub open spec fn lists_set(paths: Seq<Seq<char>>, set: Set<Seq<char>>) -> bool {
    &&& forall|i: int| 0 <= i < paths.len() ==> set.contains(#[trigger] paths[i])
    &&& forall|i: int, j: int| 0 <= i < j < paths.len() ==> paths[i] != paths[j]
    &&& forall|p: Seq<char>| set.contains(p) ==> paths.contains(p)
}

/// A transport that keeps files and directories in memory.
pub struct MemoryTransport {
    files: Vec<MemoryFile>,
    dirs: Vec<String>,
    model: Ghost<Tree>,
}

impl MemoryTransport {
    /// A transport that holds an empty root directory.
    pub fn new() -> (r: MemoryTransport)
        ensures
            r.inv(),
            r.tree() == Tree::empty().with_dir(Seq::empty()),
    {
        proof {
            reveal_strlit("");
            assert(""@ =~= Seq::<char>::empty());
        }
        let mut dirs: Vec<String> = Vec::new();
        dirs.push("".to_owned());
        let r = MemoryTransport {
            files: Vec::new(),
            dirs,
            model: Ghost(Tree::empty().with_dir(Seq::empty())),
        };
        proof {
            let paths = crate::transport::texts(r.dirs@);
            assert(paths[0] == Seq::<char>::empty());
            assert forall|p: Seq<char>| r.model@.dirs.contains(p) implies paths.contains(p) by {
                assert(paths[0] == p);
            }
        }
        r
    }

    /// The place of the file at `path`, if there is one.
    fn find_file(&self, path: &str) -> (r: Option<usize>)
        requires
            self.inv(),
        ensures
            match r {
                Some(i) => i < self.files@.len() && self.files@[i as int].path@ == path@,
                None => !self.tree().has_file(path@),
            },
    {
        let needle = path.to_owned();
        let ghost paths = file_paths(self.files@);
        let mut i: usize = 0;
        while i < self.files.len()
            invariant
                i <= self.files.len(),
                needle@ == path@,
                paths == file_paths(self.files@),
                forall|k: int| 0 <= k < i ==> paths[k] != path@,
            decreases self.files.len() - i,
        {
            if self.files[i].path == needle {
                return Some(i);
            }
            assert(paths[i as int] == self.files@[i as int].path@);
            i = i + 1;
        }
        proof {
            if self.tree().has_file(path@) {
                assert(paths.contains(path@));
            }
        }
        None
    }

    /// The place of the directory at `path`, if there is one.
    fn find_dir(&self, path: &str) -> (r: Option<usize>)
        requires
            self.inv(),
        ensures
            match r {
                Some(i) => i < self.dirs@.len() && self.dirs@[i as int]@ == path@,
                None => !self.tree().has_dir(path@),
            },
    {
        let needle = path.to_owned();
        let ghost paths = crate::transport::texts(self.dirs@);
        let mut i: usize = 0;
        while i < self.dirs.len()
            invariant
                i <= self.dirs.len(),
                needle@ == path@,
                paths == crate::transport::texts(self.dirs@),
                forall|k: int| 0 <= k < i ==> paths[k] != path@,
            decreases self.dirs.len() - i,
        {
            if self.dirs[i] == needle {
                return Some(i);
            }
            assert(paths[i as int] == self.dirs@[i as int]@);
            i = i + 1;
        }
        proof {
            if self.tree().has_dir(path@) {
                assert(paths.contains(path@));
            }
        }
        None
    }

    /// The number of files held.
    pub fn file_count(&self) -> (r: usize)
        requires
            self.inv(),
        ensures
            r == self.tree().files.dom().len(),
            self.tree().files.dom().finite(),
    {
        proof {
            lemma_listed_len(file_paths(self.files@), self.model@.files.dom());
        }
        self.files.len()
    }
}

/// A set that is listed is finite and as large as its list.
pub proof fn lemma_listed_len(paths: Seq<Seq<char>>, set: Set<Seq<char>>)
    requires
        lists_set(paths, set),
    ensures
        set.finite(),
        set.len() == paths.len(),
    decreases paths.len(),
{
    if paths.len() == 0 {
        assert forall|p: Seq<char>| !set.contains(p) by {
            if set.contains(p) {
                assert(paths.contains(p));
            }
        }
        assert(set =~= Set::empty());
    } else {
        let last = paths.last();
        let front = paths.drop_last();
        let rest = set.remove(last);
        assert(lists_set(front, rest)) by {
            assert forall|i: int| 0 <= i < front.len() implies rest.contains(
                #[trigger] front[i],
            ) by {
                assert(front[i] == paths[i]);
                assert(paths[i] != paths[paths.len() - 1]);
            }
            assert forall|i: int, j: int| 0 <= i < j < front.len() implies front[i] != front[j] by {
                assert(front[i] == paths[i] && front[j] == paths[j]);
            }
            assert forall|p: Seq<char>| rest.contains(p) implies front.contains(p) by {
                assert(paths.contains(p));
                let k = choose|k: int| 0 <= k < paths.len() && paths[k] == p;
                assert(front[k] == p);
            }
        }
        lemma_listed_len(front, rest);
        assert(set.contains(paths[paths.len() - 1]));
        assert(set =~= rest.insert(last));
    }
}

impl Transport for MemoryTransport {
    closed spec fn tree(&self) -> Tree {
        self.model@
    }

    open spec fn steady() -> bool {
        true
    }

    closed spec fn inv(&self) -> bool {
        &&& lists_set(file_paths(self.files@), self.model@.files.dom())
        &&& forall|i: int|
            0 <= i < self.files@.len() ==> self.model@.files[(#[trigger] self.files@[i]).path@]
                == self.files@[i].content@
        &&& lists_set(crate::transport::texts(self.dirs@), self.model@.dirs)
    }

    /// Never fails: a directory that is not there holds nothing.
    fn list_dir(&self, relpath: &str) -> (r: Result<ListDir, TransportError>)
        ensures
            r is Ok,
    {
        let dir = chars_of(relpath);
        let ghost tree = self.tree();
        let ghost stored_files = file_paths(self.files@);
        let ghost stored_dirs = crate::transport::texts(self.dirs@);
        let mut files: Vec<String> = Vec::new();
        let ghost mut picked: Seq<int> = Seq::empty();
        let mut i: usize = 0;
        while i < self.files.len()
            invariant
                i <= self.files.len(),
                self.inv(),
                dir@ == relpath@,
                stored_files == file_paths(self.files@),
                picked.len() == files@.len(),
                forall|j: int|
                    0 <= j < picked.len() ==> 0 <= #[trigger] picked[j] < i && crate::transport::is_name(
                        files@[j]@,
                    ) && stored_files[picked[j]] == crate::transport::join(dir@, files@[j]@),
                forall|j: int, k: int| 0 <= j < k < picked.len() ==> picked[j] < picked[k],
                forall|k: int, name: Seq<char>|
                    0 <= k < i && crate::transport::is_name(name) && #[trigger] stored_files[k]
                        == #[trigger] crate::transport::join(dir@, name) ==> exists|j: int|
                        0 <= j < files@.len() && #[trigger] files@[j]@ == name,
            decreases self.files.len() - i,
        {
            let path = chars_of(self.files[i].path.as_str());
            let ghost before = files@;
            assert(stored_files[i as int] == path@);
            match child_start(&dir, &path) {
                Some(k) => {
                    let name = self.files[i].path.as_str().substring_char(k, path.len());
                    assert(name@ =~= path@.skip(k as int));
                    files.push(name.to_owned());
                    proof {
                        picked = picked.push(i as int);
                        assert(files@[files@.len() - 1]@ == name@);
                        assert(forall|j: int| 0 <= j < before.len() ==> files@[j] == before[j]);
                        assert forall|x: int, n: Seq<char>|
                            0 <= x < i + 1 && crate::transport::is_name(n) && #[trigger] stored_files[x]
                                == #[trigger] crate::transport::join(dir@, n) implies exists|
                            j: int,
                        |
                            0 <= j < files@.len() && #[trigger] files@[j]@ == n by {
                            if x < i {
                                let j = choose|j: int|
                                    0 <= j < before.len() && #[trigger] before[j]@ == n;
                                assert(files@[j]@ == n);
                            } else {
                                lemma_join_name(dir@, n, name@);
                                assert(files@[files@.len() - 1]@ == n);
                            }
                        }
                    }
                },
                None => {},
            }
            i = i + 1;
        }
        let mut dirs: Vec<String> = Vec::new();
        let ghost mut chosen: Seq<int> = Seq::empty();
        let mut i: usize = 0;
        while i < self.dirs.len()
            invariant
                i <= self.dirs.len(),
                self.inv(),
                dir@ == relpath@,
                stored_dirs == crate::transport::texts(self.dirs@),
                chosen.len() == dirs@.len(),
                forall|j: int|
                    0 <= j < chosen.len() ==> 0 <= #[trigger] chosen[j] < i && crate::transport::is_name(
                        dirs@[j]@,
                    ) && stored_dirs[chosen[j]] == crate::transport::join(dir@, dirs@[j]@),
                forall|j: int, k: int| 0 <= j < k < chosen.len() ==> chosen[j] < chosen[k],
                forall|k: int, name: Seq<char>|
                    0 <= k < i && crate::transport::is_name(name) && #[trigger] stored_dirs[k]
                        == #[trigger] crate::transport::join(dir@, name) ==> exists|j: int|
                        0 <= j < dirs@.len() && #[trigger] dirs@[j]@ == name,
            decreases self.dirs.len() - i,
        {
            let path = chars_of(self.dirs[i].as_str());
            let ghost before = dirs@;
            assert(stored_dirs[i as int] == path@);
            match child_start(&dir, &path) {
                Some(k) => {
                    let name = self.dirs[i].as_str().substring_char(k, path.len());
                    assert(name@ =~= path@.skip(k as int));
                    dirs.push(name.to_owned());
                    proof {
                        chosen = chosen.push(i as int);
                        assert(dirs@[dirs@.len() - 1]@ == name@);
                        assert(forall|j: int| 0 <= j < before.len() ==> dirs@[j] == before[j]);
                        assert forall|x: int, n: Seq<char>|
                            0 <= x < i + 1 && crate::transport::is_name(n) && #[trigger] stored_dirs[x]
                                == #[trigger] crate::transport::join(dir@, n) implies exists|
                            j: int,
                        |
                            0 <= j < dirs@.len() && #[trigger] dirs@[j]@ == n by {
                            if x < i {
                                let j = choose|j: int|
                                    0 <= j < before.len() && #[trigger] before[j]@ == n;
                                assert(dirs@[j]@ == n);
                            } else {
                                lemma_join_name(dir@, n, name@);
                                assert(dirs@[dirs@.len() - 1]@ == n);
                            }
                        }
                    }
                },
                None => {},
            }
            i = i + 1;
        }
        let list = ListDir { files, dirs };
        proof {
            let file_names = crate::transport::texts(list.files@);
            let dir_names = crate::transport::texts(list.dirs@);
            assert forall|j: int| 0 <= j < picked.len() implies 0 <= #[trigger] picked[j]
                < stored_files.len() && crate::transport::is_name(file_names[j])
                && stored_files[picked[j]] == crate::transport::join(relpath@, file_names[j]) by {
                assert(file_names[j] == list.files@[j]@);
            }
            assert forall|k: int, name: Seq<char>|
                0 <= k < stored_files.len() && crate::transport::is_name(name)
                    && #[trigger] stored_files[k] == #[trigger] crate::transport::join(
                    relpath@,
                    name,
                ) implies exists|j: int|
                0 <= j < file_names.len() && #[trigger] file_names[j] == name by {
                let j = choose|j: int| 0 <= j < list.files@.len() && #[trigger] list.files@[j]@ == name;
                assert(file_names[j] == name);
            }
            assert forall|j: int| 0 <= j < chosen.len() implies 0 <= #[trigger] chosen[j]
                < stored_dirs.len() && crate::transport::is_name(dir_names[j])
                && stored_dirs[chosen[j]] == crate::transport::join(relpath@, dir_names[j]) by {
                assert(dir_names[j] == list.dirs@[j]@);
            }
            assert forall|k: int, name: Seq<char>|
                0 <= k < stored_dirs.len() && crate::transport::is_name(name)
                    && #[trigger] stored_dirs[k] == #[trigger] crate::transport::join(
                    relpath@,
                    name,
                ) implies exists|j: int|
                0 <= j < dir_names.len() && #[trigger] dir_names[j] == name by {
                let j = choose|j: int| 0 <= j < list.dirs@.len() && #[trigger] list.dirs@[j]@ == name;
                assert(dir_names[j] == name);
            }
            lemma_listing(
                crate::transport::texts(list.files@),
                picked,
                stored_files,
                relpath@,
                tree.files.dom(),
            );
            lemma_listing(
                crate::transport::texts(list.dirs@),
                chosen,
                stored_dirs,
                relpath@,
                tree.dirs,
            );
            assert(crate::transport::names_in(
                crate::transport::texts(list.files@),
                relpath@,
                |p: Seq<char>| tree.has_file(p),
            ));
            assert(crate::transport::names_in(
                crate::transport::texts(list.dirs@),
                relpath@,
                |p: Seq<char>| tree.has_dir(p),
            ));
        }
        Ok(list)
    }

    /// Fails only where there is no such file.
    fn read_file(&self, relpath: &str) -> (r: Result<Vec<u8>, TransportError>)
        ensures
            r is Ok <==> self.tree().has_file(relpath@),
            r matches Err(e) ==> e.kind == ErrorKind::NotFound,
    {
        match self.find_file(relpath) {
            Some(i) => {
                assert(file_paths(self.files@)[i as int] == relpath@);
                Ok(self.files[i].content.clone())
            },
            None => Err(TransportError::new(ErrorKind::NotFound, relpath, "no such file")),
        }
    }

    /// Never fails, also where the directory of the file is not there.
    fn write_file(&mut self, relpath: &str, content: &[u8]) -> (r: Result<(), TransportError>)
        ensures
            r is Ok,
    {
        let ghost before = self.files@;
        let ghost before_paths = file_paths(self.files@);
        let file = MemoryFile { path: relpath.to_owned(), content: vstd::slice::slice_to_vec(content) };
        match self.find_file(relpath) {
            Some(i) => {
                self.files.set(i, file);
                self.model = Ghost(self.model@.with_file(relpath@, content@));
                proof {
                    let paths = file_paths(self.files@);
                    assert(paths =~= before_paths);
                    assert(self.model@.files.dom() =~= old(self).model@.files.dom()) by {
                        assert(before_paths[i as int] == relpath@);
                    }
                    assert forall|k: int| 0 <= k < self.files@.len() implies self.model@.files[(
                    #[trigger] self.files@[k]).path@] == self.files@[k].content@ by {
                        if k != i {
                            assert(self.files@[k] == before[k]);
                            assert(before_paths[k] != before_paths[i as int]);
                        }
                    }
                }
            },
            None => {
                self.files.push(file);
                self.model = Ghost(self.model@.with_file(relpath@, content@));
                proof {
                    let paths = file_paths(self.files@);
                    assert(paths =~= before_paths.push(relpath@));
                    lemma_lists_more(before_paths, old(self).model@.files.dom(), relpath@);
                    assert(self.model@.files.dom() =~= old(self).model@.files.dom().insert(
                        relpath@,
                    ));
                    assert forall|k: int| 0 <= k < self.files@.len() implies self.model@.files[(
                    #[trigger] self.files@[k]).path@] == self.files@[k].content@ by {
                        if k < before.len() {
                            assert(self.files@[k] == before[k]);
                            assert(before_paths[k] == before[k].path@);
                        }
                    }
                }
            },
        }
        Ok(())
    }

    /// Never fails, also where the parent is not there.
    fn create_dir(&mut self, relpath: &str) -> (r: Result<(), TransportError>)
        ensures
            r is Ok,
    {
        let ghost before_paths = crate::transport::texts(self.dirs@);
        match self.find_dir(relpath) {
            Some(i) => {
                proof {
                    assert(before_paths[i as int] == relpath@);
                    assert(self.model@.dirs.insert(relpath@) =~= self.model@.dirs);
                }
            },
            None => {
                self.dirs.push(relpath.to_owned());
                self.model = Ghost(self.model@.with_dir(relpath@));
                proof {
                    let paths = crate::transport::texts(self.dirs@);
                    assert(paths =~= before_paths.push(relpath@));
                    lemma_lists_more(before_paths, old(self).model@.dirs, relpath@);
                }
            },
        }
        Ok(())
    }

    /// Fails only where there is nothing at the path. What is a file and a
    /// directory at once is told as a file.
    fn metadata(&self, relpath: &str) -> (r: Result<Metadata, TransportError>)
        ensures
            r is Ok <==> self.tree().has_any(relpath@),
            r matches Err(e) ==> e.kind == ErrorKind::NotFound,
    {
        match self.find_file(relpath) {
            Some(i) => {
                assert(file_paths(self.files@)[i as int] == relpath@);
                Ok(Metadata { kind: Kind::File, len: self.files[i].content.len() as u64 })
            },
            None => match self.find_dir(relpath) {
                Some(i) => {
                    assert(crate::transport::texts(self.dirs@)[i as int] == relpath@);
                    Ok(Metadata { kind: Kind::Dir, len: 0 })
                },
                None => Err(TransportError::new(ErrorKind::NotFound, relpath, "nothing there")),
            },
        }
    }

    /// Fails only where there is no such file.
    fn remove_file(&mut self, relpath: &str) -> (r: Result<(), TransportError>)
        ensures
            r is Ok <==> old(self).tree().has_file(relpath@),
            r matches Err(e) ==> e.kind == ErrorKind::NotFound,
    {
        let ghost before = self.files@;
        let ghost before_paths = file_paths(self.files@);
        match self.find_file(relpath) {
            Some(i) => {
                self.files.remove(i);
                self.model = Ghost(self.model@.without_file(relpath@));
                proof {
                    let paths = file_paths(self.files@);
                    assert(paths =~= before_paths.remove(i as int));
                    assert(before_paths[i as int] == relpath@);
                    lemma_lists_less(before_paths, old(self).model@.files.dom(), i as int);
                    assert(self.model@.files.dom() =~= old(self).model@.files.dom().remove(
                        relpath@,
                    ));
                    assert forall|k: int| 0 <= k < self.files@.len() implies self.model@.files[(
                    #[trigger] self.files@[k]).path@] == self.files@[k].content@ by {
                        let from = if k < i {
                            k
                        } else {
                            k + 1
                        };
                        assert(self.files@[k] == before[from]);
                        assert(before_paths[from] == before[from].path@);
                        assert(before_paths[from] != before_paths[i as int]);
                    }
                }
                Ok(())
            },
            None => Err(TransportError::new(ErrorKind::NotFound, relpath, "no such file")),
        }
    }

    /// Fails only where there is no such directory. What the directory holds
    /// stays.
    fn remove_dir(&mut self, relpath: &str) -> (r: Result<(), TransportError>)
        ensures
            r is Ok <==> old(self).tree().has_dir(relpath@),
            r matches Err(e) ==> e.kind == ErrorKind::NotFound,
    {
        let ghost before_paths = crate::transport::texts(self.dirs@);
        match self.find_dir(relpath) {
            Some(i) => {
                self.dirs.remove(i);
                self.model = Ghost(self.model@.without_dir(relpath@));
                proof {
                    let paths = crate::transport::texts(self.dirs@);
                    assert(paths =~= before_paths.remove(i as int));
                    assert(before_paths[i as int] == relpath@);
                    lemma_lists_less(before_paths, old(self).model@.dirs, i as int);
                }
                Ok(())
            },
            None => Err(TransportError::new(ErrorKind::NotFound, relpath, "no such directory")),
        }
    }

    /// Never fails, also where there is no such directory.
    fn remove_dir_all(&mut self, relpath: &str) -> (r: Result<(), TransportError>)
        ensures
            r is Ok,
    {
        let top = chars_of(relpath);
        let ghost gone = Set::new(|p: Seq<char>| crate::transport::within(relpath@, p));
        let mut i: usize = 0;
        while i < self.files.len()
            invariant
                i <= self.files.len(),
                self.inv(),
                top@ == relpath@,
                gone == Set::new(|p: Seq<char>| crate::transport::within(relpath@, p)),
                self.model@.dirs == old(self).model@.dirs,
                self.model@.files.submap_of(old(self).model@.files),
                forall|p: Seq<char>|
                    !gone.contains(p) && old(self).model@.files.contains_key(p)
                        ==> self.model@.files.contains_key(p),
                forall|k: int|
                    0 <= k < i ==> !gone.contains(#[trigger] file_paths(self.files@)[k]),
            decreases self.files.len() - i,
        {
            let path = chars_of(self.files[i].path.as_str());
            let ghost before = self.files@;
            let ghost before_paths = file_paths(self.files@);
            let ghost before_model = self.model@;
            assert(before_paths[i as int] == path@);
            if is_within(&top, &path) {
                self.files.remove(i);
                self.model = Ghost(self.model@.without_file(path@));
                proof {
                    let paths = file_paths(self.files@);
                    assert(paths =~= before_paths.remove(i as int));
                    lemma_lists_less(before_paths, before_model.files.dom(), i as int);
                    assert(self.model@.files.dom() =~= before_model.files.dom().remove(path@));
                    assert forall|k: int| 0 <= k < self.files@.len() implies self.model@.files[(
                    #[trigger] self.files@[k]).path@] == self.files@[k].content@ by {
                        let from = if k < i {
                            k
                        } else {
                            k + 1
                        };
                        assert(self.files@[k] == before[from]);
                        assert(before_paths[from] == before[from].path@);
                        assert(before_paths[from] != before_paths[i as int]);
                    }
                    assert forall|k: int| 0 <= k < i implies !gone.contains(
                        #[trigger] file_paths(self.files@)[k],
                    ) by {
                        assert(paths[k] == before_paths[k]);
                    }
                }
            } else {
                i = i + 1;
            }
        }
        let ghost files_done = self.model@;
        let mut i: usize = 0;
        while i < self.dirs.len()
            invariant
                i <= self.dirs.len(),
                self.inv(),
                top@ == relpath@,
                gone == Set::new(|p: Seq<char>| crate::transport::within(relpath@, p)),
                self.model@.files == files_done.files,
                self.model@.dirs.subset_of(old(self).model@.dirs),
                forall|p: Seq<char>|
                    !gone.contains(p) && old(self).model@.dirs.contains(p)
                        ==> self.model@.dirs.contains(p),
                forall|k: int|
                    0 <= k < i ==> !gone.contains(
                        #[trigger] crate::transport::texts(self.dirs@)[k],
                    ),
            decreases self.dirs.len() - i,
        {
            let path = chars_of(self.dirs[i].as_str());
            let ghost before_paths = crate::transport::texts(self.dirs@);
            let ghost before_model = self.model@;
            assert(before_paths[i as int] == path@);
            if is_within(&top, &path) {
                self.dirs.remove(i);
                self.model = Ghost(self.model@.without_dir(path@));
                proof {
                    let paths = crate::transport::texts(self.dirs@);
                    assert(paths =~= before_paths.remove(i as int));
                    lemma_lists_less(before_paths, before_model.dirs, i as int);
                    assert forall|k: int| 0 <= k < i implies !gone.contains(
                        #[trigger] crate::transport::texts(self.dirs@)[k],
                    ) by {
                        assert(paths[k] == before_paths[k]);
                    }
                }
            } else {
                i = i + 1;
            }
        }
        proof {
            let want = old(self).model@.without_all(relpath@);
            let paths = file_paths(self.files@);
            let dir_paths = crate::transport::texts(self.dirs@);
            assert(self.model@.files =~= want.files) by {
                assert forall|p: Seq<char>| self.model@.files.contains_key(p) implies !gone.contains(
                    p,
                ) by {
                    assert(paths.contains(p));
                    let k = choose|k: int| 0 <= k < paths.len() && paths[k] == p;
                    assert(!gone.contains(paths[k]));
                }
            }
            assert(self.model@.dirs =~= want.dirs) by {
                assert forall|p: Seq<char>| self.model@.dirs.contains(p) implies !gone.contains(
                    p,
                ) by {
                    assert(dir_paths.contains(p));
                    let k = choose|k: int| 0 <= k < dir_paths.len() && dir_paths[k] == p;
                    assert(!gone.contains(dir_paths[k]));
                }
            }
        }
        Ok(())
    }

    fn sub_transport(&self, relpath: &str) -> (r: Self) {
        let top = chars_of(relpath);
        let ghost want = self.model@.below(relpath@);
        let ghost stored_files = file_paths(self.files@);
        let ghost stored_dirs = crate::transport::texts(self.dirs@);
        let mut files: Vec<MemoryFile> = Vec::new();
        let mut i: usize = 0;
        while i < self.files.len()
            invariant
                i <= self.files.len(),
                self.inv(),
                top@ == relpath@,
                want == self.model@.below(relpath@),
                stored_files == file_paths(self.files@),
                forall|j: int|
                    0 <= j < files@.len() ==> want.files.contains_key(
                        (#[trigger] files@[j]).path@,
                    ) && want.files[files@[j].path@] == files@[j].content@,
                forall|j: int, k: int|
                    0 <= j < k < files@.len() ==> files@[j].path@ != files@[k].path@,
                forall|j: int|
                    0 <= j < files@.len() ==> exists|k: int|
                        0 <= k < i && stored_files[k] == crate::transport::join(
                            top@,
                            (#[trigger] files@[j]).path@,
                        ),
                forall|k: int, q: Seq<char>|
                    0 <= k < i && q.len() > 0 && #[trigger] stored_files[k]
                        == #[trigger] crate::transport::join(top@, q) ==> exists|j: int|
                        0 <= j < files@.len() && (#[trigger] files@[j]).path@ == q,
            decreases self.files.len() - i,
        {
            let path = chars_of(self.files[i].path.as_str());
            let ghost before = files@;
            assert(stored_files[i as int] == path@);
            let start = below_start(&top, &path);
            match start {
                Some(k) => {
                    let name = self.files[i].path.as_str().substring_char(k, path.len());
                    assert(name@ =~= path@.skip(k as int));
                    let file = MemoryFile {
                        path: name.to_owned(),
                        content: self.files[i].content.clone(),
                    };
                    assert(self.model@.files.contains_key(stored_files[i as int]));
                    proof {
                        assert forall|j: int| 0 <= j < before.len() implies before[j].path@
                            != name@ by {
                            let x = choose|x: int|
                                0 <= x < i && stored_files[x] == crate::transport::join(
                                    top@,
                                    before[j].path@,
                                );
                            assert(stored_files[x] != stored_files[i as int]);
                        }
                    }
                    files.push(file);
                    proof {
                        assert(forall|j: int| 0 <= j < before.len() ==> files@[j] == before[j]);
                        assert forall|x: int, q: Seq<char>|
                            0 <= x < i + 1 && q.len() > 0 && #[trigger] stored_files[x]
                                == #[trigger] crate::transport::join(top@, q) implies exists|
                            j: int,
                        |
                            0 <= j < files@.len() && (#[trigger] files@[j]).path@ == q by {
                            if x < i {
                                let j = choose|j: int|
                                    0 <= j < before.len() && (#[trigger] before[j]).path@ == q;
                                assert(files@[j].path@ == q);
                            } else {
                                lemma_join_below(top@, q, name@);
                                assert(files@[files@.len() - 1].path@ == q);
                            }
                        }
                    }
                },
                None => {},
            }
            i = i + 1;
        }
        let mut dirs: Vec<String> = Vec::new();
        let mut i: usize = 0;
        while i < self.dirs.len()
            invariant
                i <= self.dirs.len(),
                self.inv(),
                top@ == relpath@,
                want == self.model@.below(relpath@),
                stored_dirs == crate::transport::texts(self.dirs@),
                forall|j: int| 0 <= j < dirs@.len() ==> want.dirs.contains((#[trigger] dirs@[j])@),
                forall|j: int, k: int| 0 <= j < k < dirs@.len() ==> dirs@[j]@ != dirs@[k]@,
                forall|j: int|
                    0 <= j < dirs@.len() ==> exists|k: int|
                        0 <= k < i && stored_dirs[k] == crate::transport::join(
                            top@,
                            (#[trigger] dirs@[j])@,
                        ),
                forall|k: int, q: Seq<char>|
                    0 <= k < i && #[trigger] stored_dirs[k] == #[trigger] crate::transport::join(top@, q)
                        ==> exists|j: int| 0 <= j < dirs@.len() && (#[trigger] dirs@[j])@ == q,
            decreases self.dirs.len() - i,
        {
            let path = chars_of(self.dirs[i].as_str());
            let ghost before = dirs@;
            assert(stored_dirs[i as int] == path@);
            let start = if path.len() == top.len() && starts_with(&path, &top) {
                assert(path@.take(top@.len() as int) =~= path@);
                assert(path@.skip(path@.len() as int) =~= Seq::<char>::empty());
                Some(path.len())
            } else {
                below_start(&top, &path)
            };
            match start {
                Some(k) => {
                    let name = self.dirs[i].as_str().substring_char(k, path.len());
                    assert(name@ =~= path@.skip(k as int));
                    assert(self.model@.dirs.contains(stored_dirs[i as int]));
                    proof {
                        assert forall|j: int| 0 <= j < before.len() implies before[j]@
                            != name@ by {
                            let x = choose|x: int|
                                0 <= x < i && stored_dirs[x] == crate::transport::join(
                                    top@,
                                    before[j]@,
                                );
                            assert(stored_dirs[x] != stored_dirs[i as int]);
                        }
                    }
                    dirs.push(name.to_owned());
                    proof {
                        assert(forall|j: int| 0 <= j < before.len() ==> dirs@[j] == before[j]);
                        assert forall|x: int, q: Seq<char>|
                            0 <= x < i + 1 && #[trigger] stored_dirs[x] == #[trigger] crate::transport::join(
                                top@,
                                q,
                            ) implies exists|j: int|
                            0 <= j < dirs@.len() && (#[trigger] dirs@[j])@ == q by {
                            if x < i {
                                let j = choose|j: int|
                                    0 <= j < before.len() && (#[trigger] before[j])@ == q;
                                assert(dirs@[j]@ == q);
                            } else {
                                if q.len() > 0 {
                                    lemma_join_below(top@, q, name@);
                                } else {
                                    lemma_join_below_root(top@, name@);
                                }
                                assert(dirs@[dirs@.len() - 1]@ == q);
                            }
                        }
                    }
                },
                None => {
                    proof {
                        assert forall|q: Seq<char>|
                            stored_dirs[i as int] != #[trigger] crate::transport::join(top@, q) by {
                            if q.len() == 0 {
                                if top@.len() > 0 {
                                    assert(crate::transport::join(top@, q) == top@);
                                } else {
                                    assert(crate::transport::join(top@, q) == q);
                                }
                                if path@ == crate::transport::join(top@, q) {
                                    assert(path@.take(top@.len() as int) =~= top@);
                                }
                            }
                        }
                    }
                },
            }
            i = i + 1;
        }
        let r = MemoryTransport { files, dirs, model: Ghost(want) };
        proof {
            let paths = file_paths(r.files@);
            assert forall|q: Seq<char>| want.files.dom().contains(q) implies paths.contains(q) by {
                let full = crate::transport::join(relpath@, q);
                assert(stored_files.contains(full));
                let k = choose|k: int| 0 <= k < stored_files.len() && stored_files[k] == full;
                let j = choose|j: int| 0 <= j < r.files@.len() && (#[trigger] r.files@[j]).path@ == q;
                assert(paths[j] == q);
            }
            assert forall|j: int| 0 <= j < paths.len() implies want.files.dom().contains(
                #[trigger] paths[j],
            ) by {
                assert(paths[j] == r.files@[j].path@);
            }
            assert forall|j: int, k: int| 0 <= j < k < paths.len() implies paths[j] != paths[k] by {
                assert(paths[j] == r.files@[j].path@ && paths[k] == r.files@[k].path@);
            }
            let dir_paths = crate::transport::texts(r.dirs@);
            assert forall|q: Seq<char>| want.dirs.contains(q) implies dir_paths.contains(q) by {
                let full = crate::transport::join(relpath@, q);
                assert(stored_dirs.contains(full));
                let k = choose|k: int| 0 <= k < stored_dirs.len() && stored_dirs[k] == full;
                let j = choose|j: int| 0 <= j < r.dirs@.len() && (#[trigger] r.dirs@[j])@ == q;
                assert(dir_paths[j] == q);
            }
            assert forall|j: int| 0 <= j < dir_paths.len() implies want.dirs.contains(
                #[trigger] dir_paths[j],
            ) by {
                assert(dir_paths[j] == r.dirs@[j]@);
            }
            assert forall|j: int, k: int| 0 <= j < k < dir_paths.len() implies dir_paths[j]
                != dir_paths[k] by {
                assert(dir_paths[j] == r.dirs@[j]@ && dir_paths[k] == r.dirs@[k]@);
            }
        }
        r
    }
}

/// Where in `path` begins what `path` names from `top`, if it lies below
/// `top`.
fn below_start(top: &Vec<char>, path: &Vec<char>) -> (r: Option<usize>)
    ensures
        match r {
            Some(k) => {
                &&& k < path@.len()
                &&& path@ == crate::transport::join(top@, path@.skip(k as int))
            },
            None => forall|q: Seq<char>|
                q.len() > 0 ==> path@ != #[trigger] crate::transport::join(top@, q),
        },
{
    if top.len() == 0 {
        assert(path@.skip(0) =~= path@);
        if path.len() > 0 {
            Some(0)
        } else {
            None
        }
    } else {
        if path.len() > top.len() && path.len() - top.len() > 1 && starts_with(path, top)
            && path[top.len()] == '/' {
            let k = top.len() + 1;
            assert(path@ =~= top@ + seq!['/'] + path@.skip(k as int));
            Some(k)
        } else {
            assert forall|q: Seq<char>| q.len() > 0 implies path@ != #[trigger] crate::transport::join(
                top@,
                q,
            ) by {
                let joined = crate::transport::join(top@, q);
                if path@ == joined {
                    assert(joined == top@ + seq!['/'] + q);
                    assert(joined.take(top@.len() as int) =~= top@);
                    assert(joined[top@.len() as int] == '/');
                }
            }
            None
        }
    }
}

/// A path names one thing only in a directory.
pub proof fn lemma_join_name(dir: Seq<char>, a: Seq<char>, b: Seq<char>)
    requires
        crate::transport::is_name(a),
        crate::transport::is_name(b),
        crate::transport::join(dir, a) == crate::transport::join(dir, b),
    ensures
        a == b,
{
    lemma_join_below(dir, a, b);
}

/// A path names one thing only from a directory above it.
pub proof fn lemma_join_below(top: Seq<char>, a: Seq<char>, b: Seq<char>)
    requires
        a.len() > 0,
        b.len() > 0,
        crate::transport::join(top, a) == crate::transport::join(top, b),
    ensures
        a == b,
{
    if top.len() > 0 {
        let ja = top + seq!['/'] + a;
        let jb = top + seq!['/'] + b;
        assert(ja.skip(top.len() as int + 1) =~= a);
        assert(jb.skip(top.len() as int + 1) =~= b);
    }
}

/// From itself a directory is named by the empty path only.
pub proof fn lemma_join_below_root(top: Seq<char>, b: Seq<char>)
    requires
        crate::transport::join(top, Seq::empty()) == crate::transport::join(top, b),
    ensures
        b == Seq::<char>::empty(),
{
    if b.len() > 0 && top.len() > 0 {
        assert((top + seq!['/'] + b).len() > top.len());
    }
    if b.len() == 0 {
        assert(b =~= Seq::<char>::empty());
    }
}

/// What is picked from stored paths as names in a directory lists that
/// directory.
proof fn lemma_listing(
    names: Seq<Seq<char>>,
    picked: Seq<int>,
    stored: Seq<Seq<char>>,
    dir: Seq<char>,
    set: Set<Seq<char>>,
)
    requires
        lists_set(stored, set),
        picked.len() == names.len(),
        forall|j: int|
            0 <= j < picked.len() ==> 0 <= #[trigger] picked[j] < stored.len()
                && crate::transport::is_name(names[j]) && stored[picked[j]]
                == crate::transport::join(dir, names[j]),
        forall|j: int, k: int| 0 <= j < k < picked.len() ==> picked[j] < picked[k],
        forall|k: int, name: Seq<char>|
            0 <= k < stored.len() && crate::transport::is_name(name) && #[trigger] stored[k]
                == #[trigger] crate::transport::join(dir, name) ==> exists|j: int|
                0 <= j < names.len() && #[trigger] names[j] == name,
    ensures
        crate::transport::names_in(names, dir, |p: Seq<char>| set.contains(p)),
{
    let present = |p: Seq<char>| set.contains(p);
    assert forall|i: int| 0 <= i < names.len() implies crate::transport::is_name(
        #[trigger] names[i],
    ) && present(crate::transport::join(dir, names[i])) by {
        assert(stored[picked[i]] == crate::transport::join(dir, names[i]));
    }
    assert forall|i: int, j: int| 0 <= i < j < names.len() implies names[i] != names[j] by {
        assert(picked[i] < picked[j]);
        assert(stored[picked[i]] != stored[picked[j]]);
    }
    assert forall|n: Seq<char>|
        crate::transport::is_name(n) && present(
            crate::transport::join(dir, n),
        ) implies names.contains(n) by {
        let full = crate::transport::join(dir, n);
        assert(stored.contains(full));
        let k = choose|k: int| 0 <= k < stored.len() && stored[k] == full;
        let j = choose|j: int| 0 <= j < names.len() && #[trigger] names[j] == n;
        assert(names[j] == n);
    }
}

/// A list of a set, with one more path that is not in the set, lists the set
/// with that path.
proof fn lemma_lists_more(paths: Seq<Seq<char>>, set: Set<Seq<char>>, path: Seq<char>)
    requires
        lists_set(paths, set),
        !set.contains(path),
    ensures
        lists_set(paths.push(path), set.insert(path)),
{
    let more = paths.push(path);
    assert forall|i: int| 0 <= i < more.len() implies set.insert(path).contains(
        #[trigger] more[i],
    ) by {
        if i < paths.len() {
            assert(more[i] == paths[i]);
        }
    }
    assert forall|i: int, j: int| 0 <= i < j < more.len() implies more[i] != more[j] by {
        assert(more[i] == paths[i]);
        if j < paths.len() {
            assert(more[j] == paths[j]);
        }
    }
    assert forall|p: Seq<char>| set.insert(path).contains(p) implies more.contains(p) by {
        if p == path {
            assert(more[more.len() - 1] == p);
        } else {
            assert(paths.contains(p));
            let k = choose|k: int| 0 <= k < paths.len() && paths[k] == p;
            assert(more[k] == p);
        }
    }
}

/// A list of a set, without one of its paths, lists the set without that
/// path.
proof fn lemma_lists_less(paths: Seq<Seq<char>>, set: Set<Seq<char>>, i: int)
    requires
        lists_set(paths, set),
        0 <= i < paths.len(),
    ensures
        lists_set(paths.remove(i), set.remove(paths[i])),
{
    let less = paths.remove(i);
    let rest = set.remove(paths[i]);
    assert forall|k: int| 0 <= k < less.len() implies rest.contains(#[trigger] less[k]) by {
        let from = if k < i {
            k
        } else {
            k + 1
        };
        assert(less[k] == paths[from]);
        assert(paths[from] != paths[i]);
    }
    assert forall|j: int, k: int| 0 <= j < k < less.len() implies less[j] != less[k] by {
        let fj = if j < i {
            j
        } else {
            j + 1
        };
        let fk = if k < i {
            k
        } else {
            k + 1
        };
        assert(less[j] == paths[fj] && less[k] == paths[fk]);
    }
    assert forall|p: Seq<char>| rest.contains(p) implies less.contains(p) by {
        assert(paths.contains(p));
        let k = choose|k: int| 0 <= k < paths.len() && paths[k] == p;
        let to = if k < i {
            k
        } else {
            k - 1
        };
        assert(less[to] == p);
    }
}

} // verus!
