//! Archives: the top-level container of backups.
//!
//! An archive is a directory that holds a header file, a directory of
//! blocks, and one directory for each band. While a garbage collection runs
//! it also holds a lock file.

use vstd::prelude::*;
use vstd::string::StringExecFns;
use vstd::string::StringSliceAdditionalSpecFns;
use crate::bandid::BandId;
use crate::blockdir::BlockDir;
use crate::errors::Error;
use crate::transport::Transport;
use crate::transport::Tree;

verus! {

/// The name of the header file of an archive.
pub const HEADER_FILENAME: &'static str = "CONSERVE";

/// The version of the archive format that this library writes and reads.
pub const ARCHIVE_VERSION: &'static str = "0.6";

/// The name of the directory of blocks within an archive.
pub const BLOCK_DIR: &'static str = "d";

/// The name of the lock file of garbage collection.
pub const GC_LOCK: &'static str = "GC_LOCK";

/// What the header file of an archive says.
#[derive(Debug, PartialEq, Eq)]
pub struct ArchiveHeader {
    pub conserve_archive_version: String,
}

/// The band ids are in strictly increasing order.
pub open spec fn bands_increasing(ids: Seq<BandId>) -> bool {
    forall|i: int, j: int|
        0 <= i < j < ids.len() ==> crate::bandid::band_lt((#[trigger] ids[i])@, (#[trigger] ids[j])@)
}

/// `name` is the name of a band directory of `tree` that stands for the band
/// `id`.
pub open spec fn band_dir_of(tree: Tree, name: Seq<char>, id: Seq<u32>) -> bool {
    &&& crate::transport::is_name(name)
    &&& tree.has_dir(name)
    &&& crate::bandid::parse_band(name) == Some(id)
}

/// There is a band directory for `id` in `tree`.
pub open spec fn has_band_dir(tree: Tree, id: Seq<u32>) -> bool {
    exists|name: Seq<char>| band_dir_of(tree, name, id)
}

/// Two directories of `tree` stand for the band `id`.
pub open spec fn has_two_band_dirs(tree: Tree, id: Seq<u32>) -> bool {
    exists|a: Seq<char>, b: Seq<char>|
        a != b && #[trigger] band_dir_of(tree, a, id) && #[trigger] band_dir_of(tree, b, id)
}

/// No band of `tree` has two directories.
pub open spec fn bands_distinct(tree: Tree) -> bool {
    forall|id: Seq<u32>| !#[trigger] has_two_band_dirs(tree, id)
}

/// Where no band has two directories, none has among fewer directories.
pub proof fn lemma_distinct_part(part: Tree, whole: Tree)
    requires
        part.dirs.subset_of(whole.dirs),
        bands_distinct(whole),
    ensures
        bands_distinct(part),
{
    assert forall|id: Seq<u32>| !#[trigger] has_two_band_dirs(part, id) by {
        if has_two_band_dirs(part, id) {
            let (a, b) = choose|a: Seq<char>, b: Seq<char>|
                a != b && #[trigger] band_dir_of(part, a, id) && #[trigger] band_dir_of(part, b, id);
            assert(band_dir_of(whole, a, id) && band_dir_of(whole, b, id));
            assert(has_two_band_dirs(whole, id));
        }
    }
}

/// The two trees have the same directories with a name.
pub open spec fn same_names(old: Tree, new: Tree) -> bool {
    forall|name: Seq<char>|
        crate::transport::is_name(name) ==> (#[trigger] old.has_dir(name) <==> new.has_dir(name))
}

/// Whatever lists the bands of `old` lists the bands of `new`.
pub open spec fn keeps_bands(old: Tree, new: Tree) -> bool {
    forall|ids: Seq<BandId>| #[trigger] bands_of(old, ids) ==> bands_of(new, ids)
}

/// Trees with the same named directories have the same bands.
pub proof fn lemma_keeps_bands(old: Tree, new: Tree)
    requires
        same_names(old, new),
    ensures
        keeps_bands(old, new),
        bands_distinct(old) ==> bands_distinct(new),
{
    assert forall|name: Seq<char>, id: Seq<u32>|
        band_dir_of(old, name, id) == band_dir_of(new, name, id) by {
        if crate::transport::is_name(name) {
            assert(old.has_dir(name) <==> new.has_dir(name));
        }
    }
    assert forall|ids: Seq<BandId>| #[trigger] bands_of(old, ids) implies bands_of(new, ids) by {
        assert forall|i: int| 0 <= i < ids.len() implies has_band_dir(new, (#[trigger] ids[i])@) by {
            let name = choose|name: Seq<char>| band_dir_of(old, name, ids[i]@);
            assert(band_dir_of(new, name, ids[i]@));
        }
        assert forall|name: Seq<char>, id: Seq<u32>| #[trigger]
            band_dir_of(new, name, id) implies lists_band(ids, id) by {
            assert(band_dir_of(old, name, id));
        }
    }
    if bands_distinct(old) {
        assert(no_name_added(new, old)) by {
            assert forall|name: Seq<char>|
                crate::transport::is_name(name) && #[trigger] new.has_dir(name) implies old.has_dir(
                name,
            ) by {
                assert(old.has_dir(name) <==> new.has_dir(name));
            }
        }
        lemma_distinct_kept(new, old);
    }
}

/// Every named directory of `new` is one of `old`, or is the directory of the
/// band `id`.
pub open spec fn only_band_added(new: Tree, old: Tree, id: Seq<u32>) -> bool {
    forall|name: Seq<char>|
        crate::transport::is_name(name) && #[trigger] new.has_dir(name) ==> old.has_dir(name)
            || name == crate::bandid::band_text(id)
}

/// Every named directory of `new` is one of `old`.
pub open spec fn no_name_added(new: Tree, old: Tree) -> bool {
    forall|name: Seq<char>|
        crate::transport::is_name(name) && #[trigger] new.has_dir(name) ==> old.has_dir(name)
}

/// Where no band has two directories, none has when no directory with a name
/// was added.
pub proof fn lemma_distinct_kept(new: Tree, old: Tree)
    requires
        bands_distinct(old),
        no_name_added(new, old),
    ensures
        bands_distinct(new),
{
    assert forall|id: Seq<u32>| !#[trigger] has_two_band_dirs(new, id) by {
        if has_two_band_dirs(new, id) {
            let (a, b) = choose|a: Seq<char>, b: Seq<char>|
                a != b && #[trigger] band_dir_of(new, a, id) && #[trigger] band_dir_of(new, b, id);
            assert(new.has_dir(a) && new.has_dir(b));
            assert(band_dir_of(old, a, id) && band_dir_of(old, b, id));
            assert(has_two_band_dirs(old, id));
        }
    }
}

/// Where no band has two directories, none has when the directory of a band
/// that had none was added.
pub proof fn lemma_distinct_with_band(new: Tree, old: Tree, id: Seq<u32>)
    requires
        bands_distinct(old),
        id.len() >= 1,
        !has_band_dir(old, id),
        only_band_added(new, old, id),
    ensures
        bands_distinct(new),
{
    crate::bandid::lemma_parse_band_text(id);
    assert forall|x: Seq<u32>| !#[trigger] has_two_band_dirs(new, x) by {
        if has_two_band_dirs(new, x) {
            let (a, b) = choose|a: Seq<char>, b: Seq<char>|
                a != b && #[trigger] band_dir_of(new, a, x) && #[trigger] band_dir_of(new, b, x);
            assert(new.has_dir(a) && new.has_dir(b));
            if a == crate::bandid::band_text(id) {
                assert(band_dir_of(old, b, id));
            } else if b == crate::bandid::band_text(id) {
                assert(band_dir_of(old, a, id));
            } else {
                assert(band_dir_of(old, a, x) && band_dir_of(old, b, x));
                assert(has_two_band_dirs(old, x));
            }
        }
    }
}

/// One of the ids is `id`.
pub open spec fn lists_band(ids: Seq<BandId>, id: Seq<u32>) -> bool {
    exists|i: int| 0 <= i < ids.len() && (#[trigger] ids[i])@ == id
}

/// `ids` are the bands that have a directory in `tree`, each once, in
/// order.
pub open spec fn bands_of(tree: Tree, ids: Seq<BandId>) -> bool {
    &&& bands_increasing(ids)
    &&& forall|i: int| 0 <= i < ids.len() ==> has_band_dir(tree, (#[trigger] ids[i])@)
    &&& forall|name: Seq<char>, id: Seq<u32>| #[trigger]
        band_dir_of(tree, name, id) ==> lists_band(ids, id)
}

/// `found` is the last band of `tree`: it has a directory, and every band that
/// has one is it or comes before it. Or there is no band, and `found` is
/// `None`.
pub open spec fn last_band(tree: Tree, found: Option<BandId>) -> bool {
    match found {
        Some(id) => has_band_dir(tree, id@) && forall|name: Seq<char>, other: Seq<u32>| #[trigger]
            band_dir_of(tree, name, other) ==> other == id@ || crate::bandid::band_lt(other, id@),
        None => forall|name: Seq<char>, other: Seq<u32>| !#[trigger] band_dir_of(tree, name, other),
    }
}

/// `found` is the last band of `tree` that is closed: it has a directory and
/// a tail, and no band after it has a tail. Or no band has a tail, and `found`
/// is `None`.
pub open spec fn last_closed(tree: Tree, found: Option<BandId>) -> bool {
    match found {
        Some(id) => {
            &&& has_band_dir(tree, id@)
            &&& tree.has_file(band_tail_path(id@))
            &&& forall|name: Seq<char>, other: Seq<u32>|
                #[trigger] band_dir_of(tree, name, other) && crate::bandid::band_lt(id@, other)
                    ==> !tree.has_file(band_tail_path(other))
        },
        None => forall|name: Seq<char>, other: Seq<u32>| #[trigger]
            band_dir_of(tree, name, other) ==> !tree.has_file(band_tail_path(other)),
    }
}

/// The path of the head file of a band.
pub open spec fn band_head_path(id: Seq<u32>) -> Seq<char> {
    crate::bandid::band_text(id) + "/BANDHEAD"@
}

/// The path of the tail file of a band.
pub open spec fn band_tail_path(id: Seq<u32>) -> Seq<char> {
    crate::bandid::band_text(id) + "/BANDTAIL"@
}

/// Puts a band id into a list that is in order, at its place. If the id is in
/// the list already, the list stays as it is and `false` comes back.
pub fn insert_band(ids: &mut Vec<BandId>, id: BandId) -> (r: bool)
    requires
        bands_increasing(old(ids)@),
    ensures
        bands_increasing(final(ids)@),
        r == !lists_band(old(ids)@, id@),
        !r ==> final(ids)@ == old(ids)@,
        r ==> lists_band(final(ids)@, id@),
        forall|other: Seq<u32>| lists_band(old(ids)@, other) ==> lists_band(final(ids)@, other),
        forall|other: Seq<u32>|
            lists_band(final(ids)@, other) ==> other == id@ || lists_band(old(ids)@, other),
{
    let ghost before = ids@;
    let mut at: usize = 0;
    while at < ids.len() && ids[at].precedes(&id)
        invariant
            at <= ids.len(),
            ids@ == before,
            bands_increasing(before),
            forall|k: int| 0 <= k < at ==> crate::bandid::band_lt((#[trigger] before[k])@, id@),
        decreases ids.len() - at,
    {
        at = at + 1;
    }
    if at < ids.len() && ids[at].same_as(&id) {
        proof {
            assert(before[at as int]@ == id@);
        }
        return false;
    }
    proof {
        if at < before.len() {
            crate::bandid::lemma_band_lt_total(before[at as int]@, id@);
        }
    }
    proof {
        // Nothing in the list is the id: what is before its place is lower,
        // what is from its place on is higher.
        assert forall|k: int| at <= k < before.len() implies crate::bandid::band_lt(
            id@,
            (#[trigger] before[k])@,
        ) by {
            if k > at {
                crate::bandid::lemma_band_lt_transitive(id@, before[at as int]@, before[k]@);
            }
        }
        assert(!lists_band(before, id@)) by {
            if lists_band(before, id@) {
                let k = choose|k: int| 0 <= k < before.len() && (#[trigger] before[k])@ == id@;
                crate::bandid::lemma_band_lt_irreflexive(id@);
            }
        }
    }
    ids.insert(at, id);
    proof {
        let after = ids@;
        assert(after[at as int]@ == id@);
        assert forall|i: int, j: int| 0 <= i < j < after.len() implies crate::bandid::band_lt(
            (#[trigger] after[i])@,
            (#[trigger] after[j])@,
        ) by {
            let fi = if i < at {
                i
            } else {
                i - 1
            };
            let fj = if j < at {
                j
            } else {
                j - 1
            };
            if i != at {
                assert(after[i] == before[fi]);
            }
            if j != at {
                assert(after[j] == before[fj]);
            }
        }
        assert forall|other: Seq<u32>| lists_band(before, other) implies lists_band(
            after,
            other,
        ) by {
            let k = choose|k: int| 0 <= k < before.len() && (#[trigger] before[k])@ == other;
            let to = if k < at {
                k
            } else {
                k + 1
            };
            assert(after[to] == before[k]);
        }
        assert forall|other: Seq<u32>| lists_band(after, other) implies other == id@ || lists_band(
            before,
            other,
        ) by {
            let k = choose|k: int| 0 <= k < after.len() && (#[trigger] after[k])@ == other;
            if k != at {
                let from = if k < at {
                    k
                } else {
                    k - 1
                };
                assert(after[k] == before[from]);
            }
        }
    }
    true
}

/// The path of the head file of a band.
pub fn band_head_relpath(band_id: &BandId) -> (r: String)
    ensures
        r@ == band_head_path(band_id@),
{
    let mut out = band_id.to_string();
    out.append("/BANDHEAD");
    out
}

/// The path of the tail file of a band.
pub fn band_tail_relpath(band_id: &BandId) -> (r: String)
    ensures
        r@ == band_tail_path(band_id@),
{
    let mut out = band_id.to_string();
    out.append("/BANDTAIL");
    out
}

/// An archive holding backup material.
pub struct Archive<T: Transport> {
    /// Holds the header, the lock and the band directories.
    transport: T,
    /// Holds the blocks.
    block_dir: BlockDir<T>,
}

impl<T: Transport> Archive<T> {
    /// What the archive directory holds, but for the blocks.
    pub closed spec fn tree(&self) -> Tree {
        self.transport.tree()
    }

    /// What the directory of blocks holds.
    pub closed spec fn block_tree(&self) -> Tree {
        self.block_dir.tree()
    }

    /// The archive is in order within.
    pub closed spec fn wf(&self) -> bool {
        self.transport.inv() && self.block_dir.wf()
    }

    /// The directory of blocks of the archive.
    pub fn block_dir(&self) -> (r: &BlockDir<T>)
        ensures
            r.tree() == self.block_tree(),
            self.wf() ==> r.wf(),
    {
        &self.block_dir
    }

    /// The storage of the archive directory.
    pub fn transport(&self) -> (r: &T)
        ensures
            r.tree() == self.tree(),
            self.wf() ==> r.inv(),
    {
        &self.transport
    }

    /// Takes the archive apart: the storage of the archive directory, and
    /// that of its blocks.
    pub fn into_transports(self) -> (r: (T, T))
        ensures
            r.0.tree() == self.tree(),
            r.1.tree() == self.block_tree(),
            self.wf() ==> r.0.inv() && r.1.inv(),
    {
        (self.transport, self.block_dir.into_transport())
    }

    /// Puts an archive together from the storage of its directory and that
    /// of its blocks, without a look at either.
    pub fn from_transports(transport: T, blocks: T) -> (r: Archive<T>)
        requires
            transport.inv(),
            blocks.inv(),
        ensures
            r.wf(),
            r.tree() == transport.tree(),
            r.block_tree() == blocks.tree(),
    {
        Archive { transport, block_dir: BlockDir::open(blocks) }
    }

    /// The header file of an archive as this library writes it.
    pub open spec fn header_content() -> Seq<u8> {
        "{\"conserve_archive_version\":\"0.6\"}\n".spec_bytes()
    }

    /// The header file of an archive as this library writes it.
    pub fn header_bytes() -> (r: Vec<u8>)
        ensures
            r@ == Self::header_content(),
    {
        "{\"conserve_archive_version\":\"0.6\"}\n".as_bytes_vec()
    }

    /// Makes a new archive in the directory that `transport` is rooted at.
    ///
    /// The directory is created if it is not there. It must hold nothing. The
    /// header file is written and an empty directory of blocks is made.
    pub fn create(transport: T) -> (r: Result<Archive<T>, Error>)
        requires
            transport.inv(),
        ensures
            match r {
                Ok(archive) => {
                    &&& archive.wf()
                    &&& forall|name: Seq<char>|
                        crate::transport::is_name(name) ==> !transport.tree().has_file(name)
                            && !transport.tree().has_dir(name)
                    &&& archive.tree() == transport.tree().with_dir(Seq::empty()).with_dir(
                        "d"@,
                    ).with_file("CONSERVE"@, Self::header_content())
                    &&& archive.block_tree() == transport.tree().with_dir(Seq::empty()).with_dir(
                        "d"@,
                    ).below("d"@).with_dir(Seq::empty())
                    &&& bands_of(archive.tree(), Seq::empty())
                    &&& bands_distinct(archive.tree())
                    &&& !archive.tree().has_file("GC_LOCK"@)
                },
                Err(e) => match e {
                    Error::NewArchiveDirectoryNotEmpty => exists|name: Seq<char>|
                        crate::transport::is_name(name) && #[trigger] transport.tree().has_any(name),
                    Error::CreateArchiveDirectory { .. } | Error::Transport { .. } => true,
                    _ => false,
                },
            },
            T::steady() ==> (r is Ok <==> forall|name: Seq<char>|
                crate::transport::is_name(name) ==> !#[trigger] transport.tree().has_any(name)),
            T::steady() ==> (r matches Err(e) ==> e is NewArchiveDirectoryNotEmpty),
    {
        let mut transport = transport;
        let ghost start = transport.tree();
        let ghost top = Seq::<char>::empty();
        proof {
            reveal_strlit("");
            assert(""@ =~= top);
        }
        match transport.create_dir("") {
            Ok(_) => {},
            Err(source) => {
                return Err(Error::CreateArchiveDirectory { source });
            },
        }
        let list = match transport.list_dir("") {
            Ok(list) => list,
            Err(source) => {
                return Err(Error::Transport { source });
            },
        };
        let ghost files = crate::transport::texts(list.files@);
        let ghost dirs = crate::transport::texts(list.dirs@);
        if list.files.len() > 0 {
            proof {
                let name = files[0];
                assert(name == list.files@[0]@);
                assert(crate::transport::join(top, name) == name);
                assert(transport.tree().has_file(name));
                assert(crate::transport::is_name(name));
                assert(start.has_any(name));
            }
            return Err(Error::NewArchiveDirectoryNotEmpty);
        }
        if list.dirs.len() > 0 {
            proof {
                let name = dirs[0];
                assert(name == list.dirs@[0]@);
                assert(crate::transport::join(top, name) == name);
                assert(transport.tree().has_dir(name));
                assert(crate::transport::is_name(name));
                assert(start.has_any(name));
            }
            return Err(Error::NewArchiveDirectoryNotEmpty);
        }
        proof {
            assert forall|name: Seq<char>| crate::transport::is_name(name) implies !start.has_file(
                name,
            ) && !start.has_dir(name) by {
                assert(crate::transport::join(top, name) == name);
                if start.has_file(name) {
                    assert(transport.tree().has_file(name));
                    assert(files.contains(name));
                }
                if start.has_dir(name) {
                    assert(transport.tree().has_dir(name));
                    assert(dirs.contains(name));
                }
            }
        }
        match transport.create_dir("d") {
            Ok(_) => {},
            Err(source) => {
                return Err(Error::CreateArchiveDirectory { source });
            },
        }
        let blocks = transport.sub_transport("d");
        let block_dir = match BlockDir::create(blocks) {
            Ok(block_dir) => block_dir,
            Err(e) => {
                return Err(e);
            },
        };
        let header = Self::header_bytes();
        match transport.write_file("CONSERVE", header.as_slice()) {
            Ok(_) => {},
            Err(source) => {
                return Err(Error::Transport { source });
            },
        }
        proof {
            reveal_strlit("d");
            reveal_strlit("GC_LOCK");
            reveal_strlit("CONSERVE");
            assert("GC_LOCK"@.len() != "CONSERVE"@.len());
            assert(crate::transport::is_name("GC_LOCK"@)) by {
                let lock = "GC_LOCK"@;
                assert(lock.len() == 7);
                assert forall|i: int| 0 <= i < lock.len() implies lock[i] != '/' by {
                    assert(lock[0] == 'G' && lock[1] == 'C' && lock[2] == '_' && lock[3] == 'L'
                        && lock[4] == 'O' && lock[5] == 'C' && lock[6] == 'K');
                }
            }
            assert(!start.has_file("GC_LOCK"@));
            let tree = transport.tree();
            assert forall|name: Seq<char>, id: Seq<u32>| !#[trigger] band_dir_of(tree, name, id) by {
                if band_dir_of(tree, name, id) {
                    assert(name == "d"@);
                    assert(name[0] == 'd');
                }
            }
            assert forall|id: Seq<u32>| !#[trigger] has_two_band_dirs(tree, id) by {
                if has_two_band_dirs(tree, id) {
                    let (a, b) = choose|a: Seq<char>, b: Seq<char>|
                        a != b && #[trigger] band_dir_of(tree, a, id) && #[trigger] band_dir_of(
                            tree,
                            b,
                            id,
                        );
                    assert(band_dir_of(tree, a, id));
                }
            }
        }
        Ok(Archive { transport, block_dir })
    }

    /// Reads the header file of the archive that `transport` is rooted at.
    /// That there is none means that there is no archive.
    pub fn read_header(transport: &T) -> (r: Result<Vec<u8>, Error>)
        requires
            transport.inv(),
        ensures
            match r {
                Ok(content) => transport.tree().has_file("CONSERVE"@) && content@
                    == transport.tree().files["CONSERVE"@],
                Err(e) => match e {
                    Error::NotAnArchive => !transport.tree().has_file("CONSERVE"@),
                    Error::Transport { source } => source.kind
                        != crate::transport::ErrorKind::NotFound,
                    _ => false,
                },
            },
            T::steady() ==> (r is Ok <==> transport.tree().has_file("CONSERVE"@)),
    {
        match transport.read_file("CONSERVE") {
            Ok(content) => Ok(content),
            Err(source) => if source.is_not_found() {
                Err(Error::NotAnArchive)
            } else {
                Err(Error::Transport { source })
            },
        }
    }

    /// Opens the archive that `transport` is rooted at, whose header was
    /// read and says `header`. Only archives of the version that this library
    /// writes are opened.
    pub fn open(transport: T, header: &ArchiveHeader) -> (r: Result<Archive<T>, Error>)
        requires
            transport.inv(),
        ensures
            match r {
                Ok(archive) => {
                    &&& header.conserve_archive_version@ == "0.6"@
                    &&& archive.wf()
                    &&& archive.tree() == transport.tree()
                    &&& archive.block_tree() == transport.tree().below("d"@)
                },
                Err(e) => e matches Error::UnsupportedArchiveVersion { version } && version@
                    == header.conserve_archive_version@ && version@ != "0.6"@,
            },
    {
        let supported = "0.6".to_owned();
        if header.conserve_archive_version != supported {
            return Err(
                Error::UnsupportedArchiveVersion {
                    version: header.conserve_archive_version.clone(),
                },
            );
        }
        let blocks = transport.sub_transport("d");
        Ok(Archive { transport, block_dir: BlockDir::open(blocks) })
    }

    /// The directory of blocks of the archive, to write to.
    pub fn block_dir_mut(&mut self) -> (r: &mut BlockDir<T>)
        ensures
            *r == old(self).block_dir_value(),
            final(self).block_dir_value() == *final(r),
            final(self).tree() == old(self).tree(),
            final(self).transport_inv() == old(self).transport_inv(),
    {
        &mut self.block_dir
    }

    /// The directory of blocks of the archive.
    pub closed spec fn block_dir_value(&self) -> BlockDir<T> {
        self.block_dir
    }

    /// The storage of the archive directory is in order within.
    pub closed spec fn transport_inv(&self) -> bool {
        self.transport.inv()
    }

    /// How the parts of an archive hang together.
    pub proof fn lemma_parts(&self)
        ensures
            self.wf() == (self.transport_inv() && self.block_dir_value().wf()),
            self.block_tree() == self.block_dir_value().tree(),
    {
    }

    /// True if there is a file at the path in the archive directory.
    pub fn is_file(&self, relpath: &str) -> (r: Result<bool, Error>)
        requires
            self.wf(),
        ensures
            match r {
                Ok(found) => found == self.tree().has_file(relpath@),
                Err(e) => e is Transport,
            },
            T::steady() ==> r is Ok,
    {
        match crate::transport::is_file(&self.transport, relpath) {
            Ok(found) => Ok(found),
            Err(source) => Err(Error::Transport { source }),
        }
    }

    /// Reads a file of the archive directory.
    pub fn read_file(&self, relpath: &str) -> (r: Result<Vec<u8>, crate::transport::TransportError>)
        requires
            self.wf(),
        ensures
            match r {
                Ok(content) => self.tree().has_file(relpath@) && content@
                    == self.tree().files[relpath@],
                Err(e) => e.kind == crate::transport::ErrorKind::NotFound ==> !self.tree().has_file(
                    relpath@,
                ),
            },
            T::steady() ==> (r is Ok <==> self.tree().has_file(relpath@)),
            T::steady() ==> (r matches Err(e) ==> e.kind == crate::transport::ErrorKind::NotFound),
    {
        self.transport.read_file(relpath)
    }

    /// Writes a file of the archive directory.
    pub fn write_file(&mut self, relpath: &str, content: &[u8]) -> (r: Result<
        (),
        crate::transport::TransportError,
    >)
        requires
            old(self).wf(),
        ensures
            final(self).wf(),
            final(self).block_dir_value() == old(self).block_dir_value(),
            final(self).block_tree() == old(self).block_tree(),
            match r {
                Ok(_) => final(self).tree() == old(self).tree().with_file(relpath@, content@),
                Err(_) => final(self).tree() == old(self).tree(),
            },
            T::steady() ==> r is Ok,
            bands_distinct(old(self).tree()) ==> bands_distinct(final(self).tree()),
            keeps_bands(old(self).tree(), final(self).tree()),
    {
        proof {
            lemma_keeps_bands(self.tree(), self.tree().with_file(relpath@, content@));
            lemma_keeps_bands(self.tree(), self.tree());
        }
        self.transport.write_file(relpath, content)
    }

    /// Creates a directory in the archive directory.
    pub fn create_dir(&mut self, relpath: &str) -> (r: Result<(), crate::transport::TransportError>)
        requires
            old(self).wf(),
        ensures
            final(self).wf(),
            final(self).block_dir_value() == old(self).block_dir_value(),
            final(self).block_tree() == old(self).block_tree(),
            match r {
                Ok(_) => final(self).tree() == old(self).tree().with_dir(relpath@),
                Err(_) => final(self).tree() == old(self).tree(),
            },
            T::steady() ==> r is Ok,
    {
        self.transport.create_dir(relpath)
    }

    /// Removes a file of the archive directory.
    pub fn remove_file(&mut self, relpath: &str) -> (r: Result<(), crate::transport::TransportError>)
        requires
            old(self).wf(),
        ensures
            final(self).wf(),
            final(self).block_dir_value() == old(self).block_dir_value(),
            final(self).block_tree() == old(self).block_tree(),
            match r {
                Ok(_) => final(self).tree() == old(self).tree().without_file(relpath@),
                Err(_) => final(self).tree() == old(self).tree(),
            },
            T::steady() ==> (r is Ok <==> old(self).tree().has_file(relpath@)),
            bands_distinct(old(self).tree()) ==> bands_distinct(final(self).tree()),
            keeps_bands(old(self).tree(), final(self).tree()),
    {
        proof {
            lemma_keeps_bands(self.tree(), self.tree().without_file(relpath@));
            lemma_keeps_bands(self.tree(), self.tree());
        }
        self.transport.remove_file(relpath)
    }

    /// Removes a directory of the archive directory, and all that lies below
    /// it.
    pub fn remove_dir_all(&mut self, relpath: &str) -> (r: Result<
        (),
        crate::transport::TransportError,
    >)
        requires
            old(self).wf(),
        ensures
            final(self).wf(),
            final(self).block_dir_value() == old(self).block_dir_value(),
            final(self).block_tree() == old(self).block_tree(),
            match r {
                Ok(_) => final(self).tree() == old(self).tree().without_all(relpath@),
                Err(_) => {
                    &&& final(self).tree().part_of(old(self).tree())
                    &&& final(self).tree().same_outside(old(self).tree(), relpath@)
                },
            },
            T::steady() ==> r is Ok,
            bands_distinct(old(self).tree()) ==> bands_distinct(final(self).tree()),
    {
        let ghost before = self.tree();
        let r = self.transport.remove_dir_all(relpath);
        proof {
            if bands_distinct(before) {
                lemma_distinct_kept(self.tree(), before);
            }
        }
        r
    }

    /// Lists the ids of the bands of the archive, in order.
    ///
    /// A band is a directory whose name is that of a band. If two
    /// directories stand for one band, that is an error.
    pub fn list_band_ids(&self) -> (r: Result<Vec<BandId>, Error>)
        requires
            self.wf(),
        ensures
            match r {
                Ok(ids) => bands_of(self.tree(), ids@) && bands_distinct(self.tree()),
                Err(e) => match e {
                    Error::DuplicateBandDirectory { band_id } => has_two_band_dirs(
                        self.tree(),
                        band_id@,
                    ),
                    Error::ListBands { source } => true,
                    _ => false,
                },
            },
            T::steady() ==> (r matches Err(e) ==> e is DuplicateBandDirectory),
            T::steady() ==> (r is Ok <==> bands_distinct(self.tree())),
    {
        proof {
            reveal_strlit("");
            assert(""@ =~= Seq::<char>::empty());
        }
        let list = match self.transport.list_dir("") {
            Ok(list) => list,
            Err(source) => {
                return Err(Error::ListBands { source });
            },
        };
        let ghost tree = self.tree();
        let ghost top = Seq::<char>::empty();
        let dirs = list.dirs;
        let ghost names = crate::transport::texts(dirs@);
        let mut ids: Vec<BandId> = Vec::new();
        // For each id, the name of the directory that it was read from.
        let ghost mut origin: Map<Seq<u32>, int> = Map::empty();
        let mut i: usize = 0;
        while i < dirs.len()
            invariant
                i <= dirs.len(),
                tree == self.tree(),
                names == crate::transport::texts(dirs@),
                crate::transport::names_in(names, top, |p: Seq<char>| tree.has_dir(p)),
                top == Seq::<char>::empty(),
                bands_increasing(ids@),
                forall|id: Seq<u32>|
                    lists_band(ids@, id) ==> origin.contains_key(id) && 0 <= origin[id] < i
                        && crate::bandid::parse_band(names[origin[id]]) == Some(id),
                forall|k: int|
                    0 <= k < i && crate::bandid::parse_band(#[trigger] names[k]) is Some
                        ==> lists_band(ids@, crate::bandid::parse_band(names[k])->0),
                forall|x: int, y: int|
                    0 <= x < y < i && crate::bandid::parse_band(#[trigger] names[x]) is Some
                        ==> crate::bandid::parse_band(names[x]) != crate::bandid::parse_band(
                        #[trigger] names[y],
                    ),
            decreases dirs.len() - i,
        {
            assert(names[i as int] == dirs@[i as int]@);
            match BandId::from_str(dirs[i].as_str()) {
                Some(band_id) => {
                    let ghost id = band_id@;
                    let ghost before = ids@;
                    let copy = band_id.clone();
                    if !insert_band(&mut ids, band_id) {
                        proof {
                            let a = names[origin[id]];
                            let b = names[i as int];
                            assert(crate::transport::join(top, a) == a);
                            assert(crate::transport::join(top, b) == b);
                            assert(band_dir_of(tree, a, id));
                            assert(band_dir_of(tree, b, id));
                            assert(a != b);
                            assert(copy@ == id);
                            assert(has_two_band_dirs(tree, id));
                        }
                        return Err(Error::DuplicateBandDirectory { band_id: copy });
                    }
                    proof {
                        origin = origin.insert(id, i as int);
                        assert forall|x: int, y: int|
                            0 <= x < y < i + 1 && crate::bandid::parse_band(
                                #[trigger] names[x],
                            ) is Some implies crate::bandid::parse_band(names[x])
                            != crate::bandid::parse_band(#[trigger] names[y]) by {
                            if y == i {
                                assert(lists_band(before, crate::bandid::parse_band(names[x])->0));
                            }
                        }
                        assert forall|k: int|
                            0 <= k < i + 1 && crate::bandid::parse_band(
                                #[trigger] names[k],
                            ) is Some implies lists_band(
                            ids@,
                            crate::bandid::parse_band(names[k])->0,
                        ) by {
                            if k < i {
                                assert(lists_band(before, crate::bandid::parse_band(names[k])->0));
                            }
                        }
                    }
                },
                None => {},
            }
            i = i + 1;
        }
        proof {
            assert forall|k: int| 0 <= k < ids@.len() implies has_band_dir(
                tree,
                (#[trigger] ids@[k])@,
            ) by {
                let id = ids@[k]@;
                assert(lists_band(ids@, id));
                let name = names[origin[id]];
                assert(crate::transport::join(top, name) == name);
                assert(band_dir_of(tree, name, id));
            }
            assert forall|name: Seq<char>, id: Seq<u32>| #[trigger]
                band_dir_of(tree, name, id) implies lists_band(ids@, id) by {
                assert(crate::transport::join(top, name) == name);
                assert(names.contains(name));
                let k = choose|k: int| 0 <= k < names.len() && names[k] == name;
                assert(crate::bandid::parse_band(names[k]) is Some);
            }
            assert forall|id: Seq<u32>| !#[trigger] has_two_band_dirs(tree, id) by {
                if has_two_band_dirs(tree, id) {
                    let (a, b) = choose|a: Seq<char>, b: Seq<char>|
                        a != b && #[trigger] band_dir_of(tree, a, id) && #[trigger] band_dir_of(
                            tree,
                            b,
                            id,
                        );
                    assert(crate::transport::join(top, a) == a);
                    assert(crate::transport::join(top, b) == b);
                    assert(names.contains(a) && names.contains(b));
                    let x = choose|x: int| 0 <= x < names.len() && names[x] == a;
                    let y = choose|y: int| 0 <= y < names.len() && names[y] == b;
                    if x < y {
                        assert(crate::bandid::parse_band(names[x]) != crate::bandid::parse_band(
                            names[y],
                        ));
                    } else {
                        assert(crate::bandid::parse_band(names[y]) != crate::bandid::parse_band(
                            names[x],
                        ));
                    }
                }
            }
        }
        Ok(ids)
    }

    /// Returns the id of the last band, or `None` if there is no band.
    pub fn last_band_id(&self) -> (r: Result<Option<BandId>, Error>)
        requires
            self.wf(),
        ensures
            match r {
                Ok(found) => last_band(self.tree(), found) && bands_distinct(self.tree()),
                Err(e) => e is DuplicateBandDirectory || e is ListBands,
            },
            T::steady() ==> (r is Ok <==> bands_distinct(self.tree())),
    {
        let mut ids = match self.list_band_ids() {
            Ok(ids) => ids,
            Err(e) => {
                return Err(e);
            },
        };
        let ghost all = ids@;
        match ids.pop() {
            Some(last) => {
                proof {
                    assert(all[all.len() - 1] == last);
                    assert forall|name: Seq<char>, other: Seq<u32>| #[trigger]
                        band_dir_of(self.tree(), name, other) implies other == last@
                        || crate::bandid::band_lt(other, last@) by {
                        assert(lists_band(all, other));
                        let k = choose|k: int| 0 <= k < all.len() && (#[trigger] all[k])@ == other;
                        if k < all.len() - 1 {
                            assert(crate::bandid::band_lt(all[k]@, all[all.len() - 1]@));
                        }
                    }
                }
                Ok(Some(last))
            },
            None => {
                proof {
                    assert forall|name: Seq<char>, other: Seq<u32>|
                        !#[trigger] band_dir_of(self.tree(), name, other) by {
                        if band_dir_of(self.tree(), name, other) {
                            assert(lists_band(all, other));
                        }
                    }
                }
                Ok(None)
            },
        }
    }

    /// True if the band has a head file. The name of the band's directory is
    /// taken to be the id as it is written.
    pub fn band_exists(&self, band_id: &BandId) -> (r: Result<bool, Error>)
        requires
            self.wf(),
        ensures
            match r {
                Ok(found) => found == self.tree().has_file(band_head_path(band_id@)),
                Err(e) => e is Transport,
            },
            T::steady() ==> r is Ok,
    {
        let relpath = band_head_relpath(band_id);
        match crate::transport::is_file(&self.transport, relpath.as_str()) {
            Ok(found) => Ok(found),
            Err(source) => Err(Error::Transport { source }),
        }
    }

    /// True if the band is closed: it has a tail file.
    pub fn band_is_closed(&self, band_id: &BandId) -> (r: Result<bool, Error>)
        requires
            self.wf(),
        ensures
            match r {
                Ok(found) => found == self.tree().has_file(band_tail_path(band_id@)),
                Err(e) => e is Transport,
            },
            T::steady() ==> r is Ok,
    {
        let relpath = band_tail_relpath(band_id);
        match crate::transport::is_file(&self.transport, relpath.as_str()) {
            Ok(found) => Ok(found),
            Err(source) => Err(Error::Transport { source }),
        }
    }

    /// Returns the id of the last band that is closed, or `None` if there is
    /// none. The bands are looked at from the last backwards.
    pub fn last_complete_band(&self) -> (r: Result<Option<BandId>, Error>)
        requires
            self.wf(),
        ensures
            match r {
                Ok(found) => last_closed(self.tree(), found) && bands_distinct(self.tree()),
                Err(e) => e is DuplicateBandDirectory || e is ListBands || e is Transport,
            },
            T::steady() ==> (r is Ok <==> bands_distinct(self.tree())),
    {
        let mut ids = match self.list_band_ids() {
            Ok(ids) => ids,
            Err(e) => {
                return Err(e);
            },
        };
        let ghost all = ids@;
        let ghost tree = self.tree();
        loop
            invariant
                self.wf(),
                tree == self.tree(),
                bands_of(tree, all),
                bands_distinct(tree),
                ids@.len() <= all.len(),
                ids@ == all.take(ids@.len() as int),
                forall|k: int|
                    ids@.len() <= k < all.len() ==> !tree.has_file(
                        band_tail_path((#[trigger] all[k])@),
                    ),
            decreases ids@.len(),
        {
            let ghost n = ids@.len();
            match ids.pop() {
                None => {
                    proof {
                        assert forall|name: Seq<char>, other: Seq<u32>| #[trigger]
                            band_dir_of(tree, name, other) implies !tree.has_file(
                            band_tail_path(other),
                        ) by {
                            assert(lists_band(all, other));
                            let k = choose|k: int| 0 <= k < all.len() && (#[trigger] all[k])@ == other;
                        }
                    }
                    return Ok(None);
                },
                Some(id) => {
                    assert(id == all[n - 1]);
                    assert(ids@ =~= all.take(n - 1));
                    match self.band_is_closed(&id) {
                        Ok(true) => {
                            proof {
                                assert forall|name: Seq<char>, other: Seq<u32>|
                                    #[trigger] band_dir_of(tree, name, other)
                                        && crate::bandid::band_lt(id@, other) implies !tree.has_file(
                                    band_tail_path(other),
                                ) by {
                                    assert(lists_band(all, other));
                                    let k = choose|k: int|
                                        0 <= k < all.len() && (#[trigger] all[k])@ == other;
                                    if k < n - 1 {
                                        assert(crate::bandid::band_lt(all[k]@, all[n - 1]@));
                                    }
                                    crate::bandid::lemma_band_lt_total(id@, other);
                                }
                            }
                            return Ok(Some(id));
                        },
                        Ok(false) => {},
                        Err(e) => {
                            return Err(e);
                        },
                    }
                },
            }
        }
    }
}

/// `found` is the nearest band before `band_id` that has a head file in
/// `tree`: `band_id` with its last number lowered as little as it takes. It
/// is nothing if no band before `band_id` has a head file.
pub open spec fn nearest_band_before(tree: Tree, band_id: Seq<u32>, found: Option<Seq<u32>>) -> bool {
    match found {
        Some(p) => {
            &&& crate::stitch::earlier_sibling(p, band_id)
            &&& tree.has_file(band_head_path(p))
            &&& forall|q: Seq<u32>| #[trigger]
                crate::stitch::earlier_sibling(q, band_id) && p.last() < q.last() ==> !tree.has_file(
                    band_head_path(q),
                )
        },
        None => forall|q: Seq<u32>| #[trigger]
            crate::stitch::earlier_sibling(q, band_id) ==> !tree.has_file(band_head_path(q)),
    }
}

/// The ids of bands, as plain values.
pub open spec fn band_numbers(band_id: Option<BandId>) -> Option<Seq<u32>> {
    match band_id {
        Some(id) => Some(id@),
        None => None,
    }
}

/// Finds the nearest band before `band_id` that has a head file. Bands that
/// cannot be looked at are taken not to exist: the band found has a head
/// file, and on a steady transport, where every band can be looked at, it is
/// the nearest that has one.
pub fn previous_existing_band<T: Transport>(archive: &Archive<T>, band_id: BandId) -> (r: Option<
    BandId,
>)
    requires
        archive.wf(),
    ensures
        r matches Some(p) ==> crate::stitch::earlier_sibling(p@, band_id@) && archive.tree().has_file(
            band_head_path(p@),
        ),
        T::steady() ==> nearest_band_before(archive.tree(), band_id@, band_numbers(r)),
{
    let ghost start = band_id@;
    let ghost tree = archive.tree();
    let mut at = band_id;
    loop
        invariant
            archive.wf(),
            start == band_id@,
            tree == archive.tree(),
            at@ == start || crate::stitch::earlier_sibling(at@, start),
            T::steady() ==> forall|q: Seq<u32>| #[trigger]
                crate::stitch::earlier_sibling(q, start) && at@.last() <= q.last() ==> !tree.has_file(
                    band_head_path(q),
                ),
        decreases
                (if at@.len() >= 1 {
                    at@.last() as int
                } else {
                    0
                }),
    {
        match at.previous() {
            Some(prev_band_id) => {
                proof {
                    assert(prev_band_id@.drop_last() =~= at@.drop_last());
                    assert(prev_band_id@.len() == at@.len());
                    assert(prev_band_id@.last() == at@.last() - 1);
                }
                let exists = match archive.band_exists(&prev_band_id) {
                    Ok(found) => found,
                    Err(_) => false,
                };
                if exists {
                    assert(crate::stitch::earlier_sibling(prev_band_id@, start));
                    return Some(prev_band_id);
                } else {
                    proof {
                        if T::steady() {
                            assert forall|q: Seq<u32>| #[trigger]
                                crate::stitch::earlier_sibling(q, start) && prev_band_id@.last()
                                    <= q.last() implies !tree.has_file(band_head_path(q)) by {
                                if q.last() == prev_band_id@.last() {
                                    assert(q =~= q.drop_last().push(q.last()));
                                    assert(q =~= prev_band_id@);
                                }
                            }
                        }
                    }
                    at = prev_band_id;
                }
            },
            None => {
                return None;
            },
        }
    }
}

} // verus!
