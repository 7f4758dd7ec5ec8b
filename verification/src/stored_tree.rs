//! Access to a version of a tree that is stored in an archive.
//!
//! This is the preferred higher-level interface for reading stored versions.
//! It hides from the caller that the data is spread over index hunks, bands
//! and blocks.

use vstd::prelude::*;
use crate::archive::Archive;
use crate::band::Band;
use crate::band::Head;
use crate::bandid::BandId;
use crate::blockdir::BlockDir;
use crate::blockhash::BlockHash;
use crate::errors::Error;
use crate::excludes::Exclude;
use crate::index::IndexEntry;
use crate::kind::Kind;
use crate::monitor::CollectMonitor;
use crate::transport::Transport;
use crate::transport::Tree;

verus! {

/// Which version of an archive to read.
#[derive(Debug, PartialEq, Eq)]
pub enum BandSelectionPolicy {
    /// The last version that is complete.
    LatestClosed,
    /// The last version, complete or not.
    Latest,
    /// The version of this band.
    Specified(BandId),
}

/// The policy that an optional choice of band stands for: that band if one is
/// chosen, else the last.
pub fn band_selection_policy_from_opt(backup: &Option<BandId>) -> (r: BandSelectionPolicy)
    ensures
        match backup {
            Some(band_id) => r matches BandSelectionPolicy::Specified(id) && id@ == band_id@,
            None => r is Latest,
        },
{
    if let Some(band_id) = backup {
        BandSelectionPolicy::Specified(band_id.clone())
    } else {
        BandSelectionPolicy::Latest
    }
}

/// Finds the band that a policy chooses in an archive.
pub fn resolve_band_id<T: Transport>(archive: &Archive<T>, policy: BandSelectionPolicy) -> (r:
    Result<BandId, Error>)
    requires
        archive.wf(),
    ensures
        match r {
            Ok(id) => match policy {
                BandSelectionPolicy::Specified(chosen) => id@ == chosen@,
                BandSelectionPolicy::Latest => crate::archive::last_band(archive.tree(), Some(id)),
                BandSelectionPolicy::LatestClosed => crate::archive::last_closed(
                    archive.tree(),
                    Some(id),
                ),
            },
            Err(e) => {
                &&& !(policy is Specified)
                &&& e is ArchiveEmpty || e is ListBands || e is DuplicateBandDirectory
                    || e is Transport
                &&& e is ArchiveEmpty ==> (if policy is Latest {
                    crate::archive::last_band(archive.tree(), None)
                } else {
                    crate::archive::last_closed(archive.tree(), None)
                })
            },
        },
        T::steady() && crate::archive::bands_distinct(archive.tree()) ==> (r matches Err(e)
            ==> e is ArchiveEmpty),
{
    match policy {
        BandSelectionPolicy::Specified(band_id) => Ok(band_id),
        BandSelectionPolicy::Latest => match archive.last_band_id() {
            Ok(Some(band_id)) => Ok(band_id),
            Ok(None) => Err(Error::ArchiveEmpty),
            Err(e) => Err(e),
        },
        BandSelectionPolicy::LatestClosed => match archive.last_complete_band() {
            Ok(Some(band_id)) => Ok(band_id),
            Ok(None) => Err(Error::ArchiveEmpty),
            Err(e) => Err(e),
        },
    }
}

/// The last complete band of the tree has a head file.
pub open spec fn last_closed_has_head(tree: Tree) -> bool {
    exists|id: BandId| #[trigger]
        crate::archive::last_closed(tree, Some(id)) && tree.has_file(
            crate::archive::band_head_path(id@),
        )
}

/// Reads the index and the file contents of a version stored in an archive.
pub struct StoredTree {
    band_id: BandId,
    excludes: Exclude,
}

impl StoredTree {
    /// The band of the version.
    pub closed spec fn band_id(&self) -> Seq<u32> {
        self.band_id@
    }

    /// The patterns of the paths that are left out.
    pub closed spec fn patterns(&self) -> Seq<Seq<char>> {
        self.excludes.patterns()
    }

    /// Opens the last complete version in the archive, whose head was read
    /// and says `head`.
    pub fn open_last<T: Transport>(archive: &Archive<T>, head: &Head) -> (r: Result<
        StoredTree,
        Error,
    >)
        requires
            archive.wf(),
        ensures
            match r {
                Ok(tree) => {
                    &&& crate::archive::has_band_dir(archive.tree(), tree.band_id())
                    &&& archive.tree().has_file(crate::archive::band_head_path(tree.band_id()))
                    &&& archive.tree().has_file(crate::archive::band_tail_path(tree.band_id()))
                    &&& forall|name: Seq<char>, other: Seq<u32>|
                        #[trigger] crate::archive::band_dir_of(archive.tree(), name, other)
                            && crate::bandid::band_lt(tree.band_id(), other)
                            ==> !archive.tree().has_file(crate::archive::band_tail_path(other))
                    &&& crate::band::head_supported(*head)
                    &&& tree.patterns().len() == 0
                },
                Err(e) => match e {
                    Error::ArchiveEmpty => crate::archive::last_closed(archive.tree(), None),
                    Error::BandHeadMissing { band_id } => {
                        &&& crate::archive::has_band_dir(archive.tree(), band_id@)
                        &&& archive.tree().has_file(crate::archive::band_tail_path(band_id@))
                        &&& !archive.tree().has_file(crate::archive::band_head_path(band_id@))
                    },
                    Error::UnsupportedBandVersion { band_id, .. }
                    | Error::UnsupportedBandFormatFlags { band_id, .. } => {
                        &&& crate::band::head_refused(*head, band_id@, e)
                        &&& archive.tree().has_file(crate::archive::band_head_path(band_id@))
                        &&& archive.tree().has_file(crate::archive::band_tail_path(band_id@))
                    },
                    Error::ListBands { .. } | Error::DuplicateBandDirectory { .. }
                    | Error::Transport { .. } => true,
                    _ => false,
                },
            },
            T::steady() && crate::archive::bands_distinct(archive.tree()) ==> (r matches Err(e)
                ==> e is ArchiveEmpty || e is BandHeadMissing || e is UnsupportedBandVersion
                || e is UnsupportedBandFormatFlags),
            T::steady() && crate::archive::bands_distinct(archive.tree()) ==> (r is Ok
                <==> crate::band::head_supported(*head) && last_closed_has_head(archive.tree())),
    {
        let band_id = match archive.last_complete_band() {
            Ok(Some(band_id)) => band_id,
            Ok(None) => {
                return Err(Error::ArchiveEmpty);
            },
            Err(e) => {
                return Err(e);
            },
        };
        proof {
            let tree = archive.tree();
            if last_closed_has_head(tree) {
                let other = choose|other: BandId|
                    crate::archive::last_closed(tree, Some(other)) && tree.has_file(
                        crate::archive::band_head_path(other@),
                    );
                let a = choose|a: Seq<char>| crate::archive::band_dir_of(tree, a, band_id@);
                let b = choose|b: Seq<char>| crate::archive::band_dir_of(tree, b, other@);
                assert(crate::archive::band_dir_of(tree, a, band_id@));
                assert(crate::archive::band_dir_of(tree, b, other@));
                crate::bandid::lemma_band_lt_total(band_id@, other@);
            }
        }
        match StoredTree::open_version(archive, &band_id, head) {
            Ok(tree) => Ok(tree),
            Err(e) => Err(e),
        }
    }

    /// Opens a specified version, whose head was read and says `head`. It is
    /// an error if the band has no head, if the head is of a version that is
    /// not read or asks for features, or if the band is not complete: the
    /// first of these that holds is the error.
    pub fn open_version<T: Transport>(archive: &Archive<T>, band_id: &BandId, head: &Head) -> (r:
        Result<StoredTree, Error>)
        requires
            archive.wf(),
        ensures
            match r {
                Ok(tree) => {
                    &&& tree.band_id() == band_id@
                    &&& archive.tree().has_file(crate::archive::band_head_path(band_id@))
                    &&& archive.tree().has_file(crate::archive::band_tail_path(band_id@))
                    &&& crate::band::head_supported(*head)
                    &&& tree.patterns().len() == 0
                },
                Err(e) => match e {
                    Error::BandHeadMissing { band_id: id } => id@ == band_id@
                        && !archive.tree().has_file(crate::archive::band_head_path(band_id@)),
                    Error::UnsupportedBandVersion { .. } | Error::UnsupportedBandFormatFlags {
                        ..
                    } => crate::band::head_refused(*head, band_id@, e) && archive.tree().has_file(
                        crate::archive::band_head_path(band_id@),
                    ),
                    Error::BandIncomplete { band_id: id } => id@ == band_id@
                        && archive.tree().has_file(crate::archive::band_head_path(band_id@))
                        && crate::band::head_supported(*head) && !archive.tree().has_file(
                        crate::archive::band_tail_path(band_id@),
                    ),
                    Error::Transport { .. } => true,
                    _ => false,
                },
            },
            T::steady() ==> (r is Ok <==> archive.tree().has_file(
                crate::archive::band_head_path(band_id@),
            ) && crate::band::head_supported(*head) && archive.tree().has_file(
                crate::archive::band_tail_path(band_id@),
            )),
            T::steady() ==> (r matches Err(e) ==> !(e is Transport)),
    {
        let tree = match StoredTree::open_incomplete_version(archive, band_id, head) {
            Ok(tree) => tree,
            Err(e) => {
                return Err(e);
            },
        };
        match archive.band_is_closed(band_id) {
            Ok(true) => {},
            Ok(false) => {
                return Err(Error::BandIncomplete { band_id: band_id.clone() });
            },
            Err(e) => {
                return Err(e);
            },
        }
        Ok(tree)
    }

    /// Opens a specified version, whose head was read and says `head`.
    ///
    /// This allows opening incomplete versions, which may hold only a part of
    /// the source tree, or nothing at all.
    pub fn open_incomplete_version<T: Transport>(
        archive: &Archive<T>,
        band_id: &BandId,
        head: &Head,
    ) -> (r: Result<StoredTree, Error>)
        requires
            archive.wf(),
        ensures
            match r {
                Ok(tree) => {
                    &&& tree.band_id() == band_id@
                    &&& archive.tree().has_file(crate::archive::band_head_path(band_id@))
                    &&& crate::band::head_supported(*head)
                    &&& tree.patterns().len() == 0
                },
                Err(e) => match e {
                    Error::BandHeadMissing { band_id: id } => id@ == band_id@
                        && !archive.tree().has_file(crate::archive::band_head_path(band_id@)),
                    Error::UnsupportedBandVersion { .. } | Error::UnsupportedBandFormatFlags {
                        ..
                    } => crate::band::head_refused(*head, band_id@, e) && archive.tree().has_file(
                        crate::archive::band_head_path(band_id@),
                    ),
                    Error::Transport { .. } => true,
                    _ => false,
                },
            },
            T::steady() ==> (r is Ok <==> archive.tree().has_file(
                crate::archive::band_head_path(band_id@),
            ) && crate::band::head_supported(*head)),
            T::steady() ==> (r matches Err(e) ==> !(e is Transport)),
    {
        match archive.band_exists(band_id) {
            Ok(true) => {},
            Ok(false) => {
                return Err(Error::BandHeadMissing { band_id: band_id.clone() });
            },
            Err(e) => {
                return Err(e);
            },
        }
        match Band::open(band_id.clone(), head) {
            Ok(band) => Ok(StoredTree { band_id: band.id().clone(), excludes: Exclude::nothing() }),
            Err(e) => Err(e),
        }
    }

    /// The same version, with these paths left out.
    pub fn with_excludes(self, excludes: Exclude) -> (r: StoredTree)
        ensures
            r.band_id() == self.band_id(),
            r.patterns() == excludes.patterns(),
    {
        StoredTree { excludes, ..self }
    }

    /// The band of the version.
    pub fn band(&self) -> (r: &BandId)
        ensures
            r@ == self.band_id(),
    {
        &self.band_id
    }

    /// What says which paths are left out.
    pub fn excludes(&self) -> (r: &Exclude)
        ensures
            r.patterns() == self.patterns(),
    {
        &self.excludes
    }

    /// True if the version is complete.
    pub fn is_closed<T: Transport>(&self, archive: &Archive<T>) -> (r: Result<bool, Error>)
        requires
            archive.wf(),
        ensures
            match r {
                Ok(closed) => closed == archive.tree().has_file(
                    crate::archive::band_tail_path(self.band_id()),
                ),
                Err(e) => e is Transport,
            },
            T::steady() ==> r is Ok,
    {
        archive.band_is_closed(&self.band_id)
    }

    /// Checks the files among the entries, which are entries of this
    /// version: reads the content of each and checks its hash. The first file
    /// that fails ends the check, with its error. On a steady transport a
    /// file fails only if it is not sound.
    pub fn validate<T: Transport>(
        &self,
        block_dir: &mut BlockDir<T>,
        entries: &Vec<IndexEntry>,
        monitor: &mut CollectMonitor,
    ) -> (r: Result<(), Error>)
        requires
            old(block_dir).wf(),
        ensures
            final(block_dir).wf(),
            final(block_dir).tree() == old(block_dir).tree(),
            final(monitor).reported() == old(monitor).reported(),
            match r {
                Ok(_) => files_sound_before(old(block_dir).tree(), entries@, entries@.len() as int),
                Err(err) => exists|i: int| #[trigger]
                    stopped_at(old(block_dir).tree(), self.band_id(), entries@, i, err),
            },
            T::steady() ==> (r is Ok <==> files_sound_before(
                old(block_dir).tree(),
                entries@,
                entries@.len() as int,
            )),
            T::steady() ==> (r matches Err(err) ==> !(err is ReadBlock)),
    {
        let mut i: usize = 0;
        while i < entries.len()
            invariant
                i <= entries.len(),
                block_dir.wf(),
                block_dir.tree() == old(block_dir).tree(),
                monitor.reported() == old(monitor).reported(),
                files_sound_before(old(block_dir).tree(), entries@, i as int),
            decreases entries.len() - i,
        {
            if entries[i].kind == Kind::File {
                match self.validate_one_entry(block_dir, &entries[i], monitor) {
                    Ok(_) => {},
                    Err(e) => {
                        assert(stopped_at(
                            old(block_dir).tree(),
                            self.band_id(),
                            entries@,
                            i as int,
                            e,
                        ));
                        return Err(e);
                    },
                }
            }
            i = i + 1;
        }
        Ok(())
    }

    /// Checks one file: reads its content from its blocks, and checks that
    /// the content has the hash that the entry gives. An entry that gives no
    /// hash passes if its content can be read.
    pub fn validate_one_entry<T: Transport>(
        &self,
        block_dir: &mut BlockDir<T>,
        e: &IndexEntry,
        monitor: &mut CollectMonitor,
    ) -> (r: Result<(), Error>)
        requires
            old(block_dir).wf(),
        ensures
            final(block_dir).wf(),
            final(block_dir).tree() == old(block_dir).tree(),
            final(monitor).reported() == old(monitor).reported(),
            match r {
                Ok(_) => file_is_sound(old(block_dir).tree(), e@),
                Err(err) => file_fails_with(old(block_dir).tree(), self.band_id(), *e, err),
            },
            hash_differs(old(block_dir).tree(), e@) ==> (r matches Err(err) && (err is FileCorrupt
                || err is ReadBlock)),
            T::steady() ==> (r is Ok <==> file_is_sound(old(block_dir).tree(), e@)),
            T::steady() ==> (r matches Err(err) ==> !(err is ReadBlock)),
            T::steady() ==> ((r matches Err(err) && err is FileCorrupt) <==> hash_differs(
                old(block_dir).tree(),
                e@,
            )),
    {
        let content = match crate::filecontent::read_file_content(block_dir, &e.addrs, monitor) {
            Ok(content) => content,
            Err(err) => {
                return Err(err);
            },
        };
        match &e.content_hash {
            Some(expected) => {
                let actual = BlockHash::hash_bytes(content.as_slice());
                if actual.same_as(expected) {
                    Ok(())
                } else {
                    proof {
                        if actual.name() == expected.name() {
                            crate::blockhash::lemma_hex_text_injective(actual@, expected@);
                        }
                    }
                    Err(
                        Error::FileCorrupt {
                            band_id: self.band_id.clone(),
                            apath: e.apath.clone(),
                            expected_hex: expected.to_string(),
                            actual_hex: actual.to_string(),
                        },
                    )
                }
            },
            None => Ok(()),
        }
    }
}

/// The bytes of the files among the entries, by the sizes that the entries
/// give.
pub open spec fn file_bytes(entries: Seq<crate::index::EntryView>) -> nat
    decreases entries.len(),
{
    if entries.len() == 0 {
        0
    } else {
        file_bytes(entries.drop_last()) + (match (entries.last().kind, entries.last().size) {
            (Kind::File, Some(size)) => size as nat,
            _ => 0nat,
        })
    }
}

/// Adds up the sizes of the files among the entries. The sum is cut off at
/// the highest number.
pub fn total_file_bytes(entries: &Vec<IndexEntry>) -> (r: u64)
    ensures
        r == (if file_bytes(entries.deep_view()) > u64::MAX {
            u64::MAX as nat
        } else {
            file_bytes(entries.deep_view())
        }),
{
    let ghost views = entries.deep_view();
    let mut total: u64 = 0;
    let mut i: usize = 0;
    assert(views.take(0) =~= Seq::<crate::index::EntryView>::empty());
    while i < entries.len()
        invariant
            i <= entries.len(),
            views == entries.deep_view(),
            total == (if file_bytes(views.take(i as int)) > u64::MAX {
                u64::MAX as nat
            } else {
                file_bytes(views.take(i as int))
            }),
        decreases entries.len() - i,
    {
        proof {
            assert(views.take(i as int + 1).drop_last() =~= views.take(i as int));
            assert(views.take(i as int + 1).last() == entries@[i as int]@);
        }
        if entries[i].kind == Kind::File {
            match entries[i].size {
                Some(size) => {
                    total = if size > u64::MAX - total {
                        u64::MAX
                    } else {
                        total + size
                    };
                },
                None => {},
            }
        }
        i = i + 1;
    }
    assert(views.take(i as int) =~= views);
    total
}

/// The content of the file can be read from its blocks, and has another
/// hash than the entry gives.
pub open spec fn hash_differs(tree: Tree, entry: crate::index::EntryView) -> bool {
    match (crate::filecontent::read_back(tree, entry.addrs), entry.content_hash) {
        (Some(content), Some(hash)) => crate::blockhash::blake2b_digest(content) != hash,
        _ => false,
    }
}

/// What an error says of the file of the version `band_id` whose check it
/// ended: the content was read and has another hash than the entry gives;
/// or the content cannot be read from the blocks; or the storage failed to
/// read one of the blocks.
pub open spec fn file_fails_with(tree: Tree, band_id: Seq<u32>, e: IndexEntry, err: Error) -> bool {
    match err {
        Error::FileCorrupt { band_id: band, apath, expected_hex, actual_hex } => {
            &&& band@ == band_id
            &&& apath@ == e.apath@
            &&& hash_differs(tree, e@)
            &&& e.content_hash is Some
            &&& expected_hex@ == e.content_hash->0.name()
            &&& actual_hex@ == crate::blockhash::hex_text(
                crate::blockhash::blake2b_digest(crate::filecontent::read_back(tree, e@.addrs)->0),
            )
            &&& actual_hex@ != expected_hex@
        },
        Error::AddressTooLong { .. } | Error::BlockCorrupt { .. } | Error::Compression { .. }
        | Error::BlockMissing { .. } => crate::filecontent::read_back(tree, e@.addrs) is None,
        Error::ReadBlock { .. } => crate::filecontent::read_failure(e@.addrs, err),
        _ => false,
    }
}

/// Every file among the first `n` entries is sound.
pub open spec fn files_sound_before(tree: Tree, entries: Seq<IndexEntry>, n: int) -> bool {
    forall|k: int|
        0 <= k < n && k < entries.len() && (#[trigger] entries[k]).kind == Kind::File
            ==> file_is_sound(tree, entries[k]@)
}

/// The check of the entries of the version `band_id` ended at the file `i`
/// with `err`: the files before it are sound, and this one fails with `err`.
pub open spec fn stopped_at(
    tree: Tree,
    band_id: Seq<u32>,
    entries: Seq<IndexEntry>,
    i: int,
    err: Error,
) -> bool {
    &&& 0 <= i < entries.len()
    &&& entries[i].kind == Kind::File
    &&& file_fails_with(tree, band_id, entries[i], err)
    &&& files_sound_before(tree, entries, i)
}

/// The content of the file can be read from its blocks, and has the hash that
/// the entry gives, if it gives one.
pub open spec fn file_is_sound(tree: Tree, entry: crate::index::EntryView) -> bool {
    match crate::filecontent::read_back(tree, entry.addrs) {
        Some(content) => match entry.content_hash {
            Some(hash) => crate::blockhash::blake2b_digest(content) == hash,
            None => true,
        },
        None => false,
    }
}

} // verus!
