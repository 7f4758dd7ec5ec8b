//! Bands are the top-level structure inside an archive.
//!
//! Each band holds the index of one backup, in hunks. A band has a head,
//! which is written when the band is made, and a tail, which is written when
//! the backup has ended. A band with a tail is closed, and is not changed any
//! more.

use vstd::prelude::*;
use vstd::string::StringExecFns;
use crate::archive::Archive;
use crate::bandid::BandId;
use crate::errors::Error;
use crate::monitor::CollectMonitor;
use crate::monitor::Counter;
use crate::transport::Transport;
use crate::transport::Tree;

verus! {

/// The newest version of the band format that this library reads, and the
/// one it writes.
pub const BAND_FORMAT_VERSION: &'static str = "0.6.3";

/// So many hunks of an index are kept in one directory.
pub const HUNKS_PER_SUBDIR: u32 = 10_000;

/// What the head of a band says.
#[derive(Debug, PartialEq, Eq)]
pub struct Head {
    /// When the backup started, in seconds since the Unix epoch.
    pub start_time: i64,
    /// The version of the format of the band. Old bands have none.
    pub band_format_version: Option<String>,
    /// Features that a reader must know to read the band.
    pub format_flags: Vec<String>,
}

/// What the tail of a band says.
#[derive(Debug, PartialEq, Eq)]
pub struct Tail {
    /// When the backup ended, in seconds since the Unix epoch.
    pub end_time: i64,
    /// The number of hunks of the index. Old bands have none.
    pub index_hunk_count: Option<u64>,
}

/// What is known of a band from its head, and from its tail if it has one.
#[derive(Debug, PartialEq, Eq)]
pub struct Info {
    pub id: BandId,
    pub is_closed: bool,
    /// When the backup started.
    pub start_time: i64,
    /// When the backup ended, if it has.
    pub end_time: Option<i64>,
    /// The number of hunks of the index, if the tail says it.
    pub index_hunk_count: Option<u64>,
}

/// The newest version of the band format that is read, as numbers.
pub open spec fn newest_band_format() -> Seq<u32> {
    seq![0u32, 6u32, 3u32]
}

/// A band of this version can be read: the version is made of numbers with
/// dots between them, and is not newer than the newest that is read.
pub open spec fn band_version_ok(version: Seq<char>) -> bool {
    match crate::bandid::parse_components(version) {
        Some(numbers) => !crate::bandid::band_lt(newest_band_format(), numbers),
        None => false,
    }
}

/// A band with this head can be read: its version, if it gives one, is not
/// too new, and it needs no feature.
pub open spec fn head_supported(head: Head) -> bool {
    &&& head.band_format_version matches Some(version) ==> band_version_ok(version@)
    &&& head.format_flags@.len() == 0
}

/// What an error says of the head of the band `band_id` that is not read:
/// its version is too new or is no version; or the version is in order and
/// the band needs features, of which none is known.
pub open spec fn head_refused(head: Head, band_id: Seq<u32>, e: Error) -> bool {
    match e {
        Error::UnsupportedBandVersion { band_id: id, version } => {
            &&& id@ == band_id
            &&& head.band_format_version is Some
            &&& version@ == head.band_format_version->0@
            &&& !band_version_ok(version@)
        },
        Error::UnsupportedBandFormatFlags { band_id: id, unsupported_flags } => {
            &&& id@ == band_id
            &&& head.band_format_version matches Some(version) ==> band_version_ok(version@)
            &&& unsupported_flags@.len() > 0
            &&& crate::transport::texts(unsupported_flags@) == crate::transport::texts(
                head.format_flags@,
            )
        },
        _ => false,
    }
}

/// True if a band of this version can be read.
pub fn band_version_supported(version: &str) -> (r: bool)
    ensures
        r == band_version_ok(version@),
{
    match crate::bandid::parse_numbers(version, 0) {
        Some(numbers) => {
            proof {
                assert(version@.skip(0) =~= version@);
                crate::bandid::lemma_parsed_not_empty(version@);
            }
            let mut newest: Vec<u32> = Vec::new();
            newest.push(0);
            newest.push(6);
            newest.push(3);
            assert(newest@ =~= newest_band_format());
            let newest = BandId::new(newest.as_slice());
            let given = BandId::new(numbers.as_slice());
            !newest.precedes(&given)
        },
        None => {
            assert(version@.skip(0) =~= version@);
            false
        },
    }
}

/// The path of the directory of the index of a band.
pub open spec fn index_dir_path(id: Seq<u32>) -> Seq<char> {
    crate::bandid::band_text(id) + "/i"@
}

/// The path of the directory that holds a hunk.
pub open spec fn hunk_subdir_path(id: Seq<u32>, hunk_number: u32) -> Seq<char> {
    index_dir_path(id) + "/"@ + crate::bandid::zero_padded(
        (hunk_number / HUNKS_PER_SUBDIR) as nat,
        4,
    )
}

/// The path of the file of a hunk.
pub open spec fn hunk_path(id: Seq<u32>, hunk_number: u32) -> Seq<char> {
    hunk_subdir_path(id, hunk_number) + "/"@ + crate::bandid::zero_padded(hunk_number as nat, 9)
}

/// What the file of a hunk stands for: the bytes that were written as the
/// hunk, if the file is there and can be decompressed.
pub open spec fn hunk_content(tree: Tree, id: Seq<u32>, hunk_number: u32) -> Option<Seq<u8>> {
    if tree.has_file(hunk_path(id, hunk_number)) {
        crate::compress::snappy_decompressed(tree.files[hunk_path(id, hunk_number)])
    } else {
        None
    }
}

/// The path of the directory of the index of a band.
pub fn index_dir_relpath(band_id: &BandId) -> (r: String)
    ensures
        r@ == index_dir_path(band_id@),
{
    let mut out = band_id.to_string();
    out.append("/i");
    out
}

/// The path of the directory that holds a hunk.
pub fn hunk_subdir_relpath(band_id: &BandId, hunk_number: u32) -> (r: String)
    ensures
        r@ == hunk_subdir_path(band_id@, hunk_number),
{
    let mut out = index_dir_relpath(band_id);
    out.append("/");
    crate::bandid::push_zero_padded(&mut out, (hunk_number / HUNKS_PER_SUBDIR) as u64, 4);
    assert(out@ =~= hunk_subdir_path(band_id@, hunk_number));
    out
}

/// The path of the file of a hunk.
pub fn hunk_relpath(band_id: &BandId, hunk_number: u32) -> (r: String)
    ensures
        r@ == hunk_path(band_id@, hunk_number),
{
    let mut out = hunk_subdir_relpath(band_id, hunk_number);
    out.append("/");
    crate::bandid::push_zero_padded(&mut out, hunk_number as u64, 9);
    assert(out@ =~= hunk_path(band_id@, hunk_number));
    out
}

/// `id` is the id for the next band of `tree`: `b0000` if there is no band,
/// else the id of the last band with its last number one higher.
pub open spec fn follows_last(tree: Tree, id: Seq<u32>) -> bool {
    if forall|name: Seq<char>, other: Seq<u32>| !#[trigger] crate::archive::band_dir_of(tree, name, other) {
        id == seq![0u32]
    } else {
        exists|last: Seq<u32>|
            #[trigger] crate::archive::has_band_dir(tree, last) && last.len() >= 1 && last.last()
                < u32::MAX && id == last.drop_last().push((last.last() + 1) as u32)
    }
}

/// A band of an archive.
#[derive(Debug, PartialEq, Eq)]
pub struct Band {
    band_id: BandId,
}

impl Band {
    /// The id of the band.
    pub closed spec fn band_id(&self) -> Seq<u32> {
        self.band_id@
    }

    /// The id of the band.
    pub fn id(&self) -> (r: &BandId)
        ensures
            r@ == self.band_id(),
    {
        &self.band_id
    }

    /// Makes a new band in the archive: the band after the last, or the
    /// first. Its directory is made, and `head` is written as its head file.
    pub fn create<T: Transport>(archive: &mut Archive<T>, head: &[u8]) -> (r: Result<Band, Error>)
        requires
            old(archive).wf(),
        ensures
            final(archive).wf(),
            final(archive).block_dir_value() == old(archive).block_dir_value(),
            final(archive).block_tree() == old(archive).block_tree(),
            crate::archive::bands_distinct(old(archive).tree()) ==> crate::archive::bands_distinct(
                final(archive).tree(),
            ),
            match r {
                Ok(band) => {
                    let id = band.band_id();
                    &&& final(archive).tree() == old(archive).tree().with_dir(
                        crate::bandid::band_text(id),
                    ).with_dir(index_dir_path(id)).with_file(
                        crate::archive::band_head_path(id),
                        head@,
                    )
                    &&& forall|name: Seq<char>, other: Seq<u32>| #[trigger]
                        crate::archive::band_dir_of(old(archive).tree(), name, other)
                            ==> crate::bandid::band_lt(other, id)
                    &&& follows_last(old(archive).tree(), id)
                },
                Err(e) => {
                    &&& e is CreateBand || e is ListBands || e is DuplicateBandDirectory
                    &&& final(archive).tree().files == old(archive).tree().files
                },
            },
            T::steady() && crate::archive::bands_distinct(old(archive).tree()) && (forall|
                name: Seq<char>,
                other: Seq<u32>,
            | #[trigger]
                crate::archive::band_dir_of(old(archive).tree(), name, other) ==> other.last()
                    < u32::MAX) ==> r is Ok,
    {
        let band_id = match archive.last_band_id() {
            Ok(Some(last)) => match last.next_sibling() {
                Some(next) => {
                    proof {
                        lemma_next_follows(last@);
                        assert forall|name: Seq<char>, other: Seq<u32>| #[trigger]
                            crate::archive::band_dir_of(
                                archive.tree(),
                                name,
                                other,
                            ) implies crate::bandid::band_lt(other, next@) by {
                            if other != last@ {
                                crate::bandid::lemma_band_lt_transitive(other, last@, next@);
                            }
                        }
                    }
                    next
                },
                None => {
                    return Err(
                        Error::CreateBand {
                            source: crate::transport::TransportError::new(
                                crate::transport::ErrorKind::Other,
                                "",
                                "there is no band id after the last",
                            ),
                        },
                    );
                },
            },
            Ok(None) => BandId::zero(),
            Err(e) => {
                return Err(e);
            },
        };
        let ghost first = archive.tree();
        let ghost id = band_id@;
        proof {
            reveal_strlit("/i");
            assert(index_dir_path(id)[crate::bandid::band_text(id).len() as int] == '/');
            assert(!crate::transport::is_name(index_dir_path(id)));
            if crate::archive::has_band_dir(first, id) {
                let name = choose|name: Seq<char>| crate::archive::band_dir_of(first, name, id);
                assert(crate::archive::band_dir_of(first, name, id));
                crate::bandid::lemma_band_lt_irreflexive(id);
            }
        }
        let band_dir = band_id.to_string();
        let made = archive.create_dir(band_dir.as_str());
        proof {
            if crate::archive::bands_distinct(first) {
                assert(crate::archive::only_band_added(archive.tree(), first, id));
                crate::archive::lemma_distinct_with_band(archive.tree(), first, id);
            }
        }
        match made {
            Ok(_) => {},
            Err(source) => {
                return Err(Error::CreateBand { source });
            },
        }
        let index_dir = index_dir_relpath(&band_id);
        let made = archive.create_dir(index_dir.as_str());
        proof {
            if crate::archive::bands_distinct(first) {
                assert(crate::archive::only_band_added(archive.tree(), first, id));
                crate::archive::lemma_distinct_with_band(archive.tree(), first, id);
            }
        }
        match made {
            Ok(_) => {},
            Err(source) => {
                return Err(Error::CreateBand { source });
            },
        }
        let head_path = crate::archive::band_head_relpath(&band_id);
        match archive.write_file(head_path.as_str(), head) {
            Ok(_) => {},
            Err(source) => {
                return Err(Error::CreateBand { source });
            },
        }
        Ok(Band { band_id })
    }

    /// Reads the head file of a band.
    pub fn read_head<T: Transport>(archive: &Archive<T>, band_id: &BandId) -> (r: Result<
        Vec<u8>,
        Error,
    >)
        requires
            archive.wf(),
        ensures
            match r {
                Ok(content) => archive.tree().has_file(crate::archive::band_head_path(band_id@))
                    && content@ == archive.tree().files[crate::archive::band_head_path(band_id@)],
                Err(e) => match e {
                    Error::BandHeadMissing { band_id: id } => id@ == band_id@
                        && !archive.tree().has_file(crate::archive::band_head_path(band_id@)),
                    Error::Transport { source } => source.kind
                        != crate::transport::ErrorKind::NotFound,
                    _ => false,
                },
            },
            T::steady() ==> (r is Ok <==> archive.tree().has_file(
                crate::archive::band_head_path(band_id@),
            )),
    {
        let relpath = crate::archive::band_head_relpath(band_id);
        match archive.read_file(relpath.as_str()) {
            Ok(content) => Ok(content),
            Err(source) => if source.is_not_found() {
                Err(Error::BandHeadMissing { band_id: band_id.clone() })
            } else {
                Err(Error::Transport { source })
            },
        }
    }

    /// Reads the tail file of a band, if the band has one.
    pub fn read_tail<T: Transport>(archive: &Archive<T>, band_id: &BandId) -> (r: Result<
        Option<Vec<u8>>,
        Error,
    >)
        requires
            archive.wf(),
        ensures
            match r {
                Ok(Some(content)) => archive.tree().has_file(
                    crate::archive::band_tail_path(band_id@),
                ) && content@ == archive.tree().files[crate::archive::band_tail_path(band_id@)],
                Ok(None) => !archive.tree().has_file(crate::archive::band_tail_path(band_id@)),
                Err(e) => e is Transport,
            },
            T::steady() ==> r is Ok,
    {
        let relpath = crate::archive::band_tail_relpath(band_id);
        match archive.read_file(relpath.as_str()) {
            Ok(content) => Ok(Some(content)),
            Err(source) => if source.is_not_found() {
                Ok(None)
            } else {
                Err(Error::Transport { source })
            },
        }
    }

    /// Opens a band whose head was read and says `head`. A band of a newer
    /// version than is read, or one that needs any feature, is not opened.
    pub fn open(band_id: BandId, head: &Head) -> (r: Result<Band, Error>)
        ensures
            r is Ok <==> head_supported(*head),
            r matches Err(e) ==> head_refused(*head, band_id@, e),
            match r {
                Ok(band) => {
                    &&& band.band_id() == band_id@
                    &&& head.band_format_version matches Some(version) ==> band_version_ok(
                        version@,
                    )
                    &&& head.format_flags@.len() == 0
                },
                Err(e) => match e {
                    Error::UnsupportedBandVersion { band_id: id, version } => {
                        &&& id@ == band_id@
                        &&& head.band_format_version is Some
                        &&& version@ == head.band_format_version->0@
                        &&& !band_version_ok(version@)
                    },
                    Error::UnsupportedBandFormatFlags { band_id: id, unsupported_flags } => {
                        &&& id@ == band_id@
                        &&& head.band_format_version matches Some(version) ==> band_version_ok(
                            version@,
                        )
                        &&& unsupported_flags@.len() > 0
                        &&& crate::transport::texts(unsupported_flags@) == crate::transport::texts(
                            head.format_flags@,
                        )
                    },
                    _ => false,
                },
            },
    {
        match &head.band_format_version {
            Some(version) => {
                if !band_version_supported(version.as_str()) {
                    return Err(
                        Error::UnsupportedBandVersion { band_id, version: version.clone() },
                    );
                }
            },
            None => {},
        }
        if head.format_flags.len() > 0 {
            let unsupported_flags = head.format_flags.clone();
            assert(crate::transport::texts(unsupported_flags@) =~= crate::transport::texts(
                head.format_flags@,
            ));
            return Err(Error::UnsupportedBandFormatFlags { band_id, unsupported_flags });
        }
        Ok(Band { band_id })
    }

    /// Closes the band: writes `tail` as its tail file. After this the band
    /// is not changed any more.
    pub fn close<T: Transport>(&self, archive: &mut Archive<T>, tail: &[u8]) -> (r: Result<
        (),
        Error,
    >)
        requires
            old(archive).wf(),
        ensures
            final(archive).wf(),
            final(archive).block_dir_value() == old(archive).block_dir_value(),
            final(archive).block_tree() == old(archive).block_tree(),
            final(archive).tree().dirs == old(archive).tree().dirs,
            crate::archive::bands_distinct(old(archive).tree()) ==> crate::archive::bands_distinct(
                final(archive).tree(),
            ),
            crate::archive::keeps_bands(old(archive).tree(), final(archive).tree()),
            match r {
                Ok(_) => final(archive).tree() == old(archive).tree().with_file(
                    crate::archive::band_tail_path(self.band_id()),
                    tail@,
                ),
                Err(e) => e is Transport && final(archive).tree() == old(archive).tree(),
            },
            T::steady() ==> r is Ok,
    {
        let relpath = crate::archive::band_tail_relpath(&self.band_id);
        match archive.write_file(relpath.as_str(), tail) {
            Ok(_) => Ok(()),
            Err(source) => Err(Error::Transport { source }),
        }
    }

    /// True if the band is closed: it has a tail file.
    pub fn is_closed<T: Transport>(&self, archive: &Archive<T>) -> (r: Result<bool, Error>)
        requires
            archive.wf(),
        ensures
            match r {
                Ok(closed) => closed == archive.tree().has_file(
                    crate::archive::band_tail_path(self.band_id()),
                ),
                Err(e) => e is Transport,
            },
            T::steady() ==> r is Ok,
    {
        archive.band_is_closed(&self.band_id)
    }

    /// Puts together what the head says and what the tail says, if there is a
    /// tail.
    pub fn get_info(&self, head: &Head, tail: Option<&Tail>) -> (r: Info)
        ensures
            r.id@ == self.band_id(),
            r.is_closed == tail is Some,
            r.start_time == head.start_time,
            r.end_time == (match tail {
                Some(t) => Some(t.end_time),
                None => None,
            }),
            r.index_hunk_count == (match tail {
                Some(t) => t.index_hunk_count,
                None => None,
            }),
    {
        match tail {
            Some(t) => Info {
                id: self.band_id.clone(),
                is_closed: true,
                start_time: head.start_time,
                end_time: Some(t.end_time),
                index_hunk_count: t.index_hunk_count,
            },
            None => Info {
                id: self.band_id.clone(),
                is_closed: false,
                start_time: head.start_time,
                end_time: None,
                index_hunk_count: None,
            },
        }
    }
}

/// The band after a band comes after it in the order of band ids.
pub proof fn lemma_next_follows(a: Seq<u32>)
    requires
        a.len() >= 1,
        a.last() < u32::MAX,
    ensures
        crate::bandid::band_lt(a, a.drop_last().push((a.last() + 1) as u32)),
{
    let n = a.drop_last().push((a.last() + 1) as u32);
    let i = a.len() - 1;
    assert(n.take(i) =~= a.take(i));
    crate::bandid::lemma_band_lt_at(a, n, i);
}

/// Writes a hunk of the index of a band: compresses what the entries of the
/// hunk were turned into, `serialized`, and writes it under the number of the
/// hunk.
pub fn write_hunk<T: Transport>(
    archive: &mut Archive<T>,
    band_id: &BandId,
    hunk_number: u32,
    serialized: &[u8],
    monitor: &mut CollectMonitor,
) -> (r: Result<(), Error>)
    requires
        old(archive).wf(),
    ensures
        final(archive).wf(),
        final(archive).block_dir_value() == old(archive).block_dir_value(),
            final(archive).block_tree() == old(archive).block_tree(),
        final(monitor).reported() == old(monitor).reported(),
        crate::archive::bands_distinct(old(archive).tree()) ==> crate::archive::bands_distinct(
            final(archive).tree(),
        ),
        match r {
            Ok(_) => {
                let path = hunk_path(band_id@, hunk_number);
                let stored = final(archive).tree().files[path];
                &&& final(archive).tree() == old(archive).tree().with_dir(
                    index_dir_path(band_id@),
                ).with_dir(hunk_subdir_path(band_id@, hunk_number)).with_file(path, stored)
                &&& hunk_content(final(archive).tree(), band_id@, hunk_number) == Some(
                    serialized@,
                )
                &&& final(monitor).counts() == old(monitor).counts().plus(
                    Counter::IndexWrites,
                    1,
                ).plus(Counter::IndexWriteCompressedBytes, stored.len() as usize)
            },
            Err(e) => {
                &&& final(archive).tree().files == old(archive).tree().files
                &&& final(monitor).counts() == old(monitor).counts()
                &&& match e {
                    Error::Compression { .. } => serialized@.len()
                        > crate::compress::MAX_COMPRESS_INPUT,
                    Error::WriteIndex { path, .. } => path@ == hunk_path(band_id@, hunk_number),
                    _ => false,
                }
            },
        },
        serialized@.len() > crate::compress::MAX_COMPRESS_INPUT ==> r matches Err(
            Error::Compression { .. },
        ),
        T::steady() ==> (r is Ok <==> serialized@.len() <= crate::compress::MAX_COMPRESS_INPUT),
{
    let compressed = match crate::compress::compress(serialized) {
        Ok(compressed) => compressed,
        Err(e) => {
            return Err(e);
        },
    };
    let relpath = hunk_relpath(band_id, hunk_number);
    let index_dir = index_dir_relpath(band_id);
    let ghost first = archive.tree();
    proof {
        reveal_strlit("/i");
        let at = crate::bandid::band_text(band_id@).len() as int;
        assert(index_dir_path(band_id@)[at] == '/');
        assert(hunk_subdir_path(band_id@, hunk_number)[at] == '/');
        assert(!crate::transport::is_name(index_dir_path(band_id@)));
        assert(!crate::transport::is_name(hunk_subdir_path(band_id@, hunk_number)));
    }
    let made = archive.create_dir(index_dir.as_str());
    proof {
        if crate::archive::bands_distinct(first) {
            assert(crate::archive::no_name_added(archive.tree(), first));
            crate::archive::lemma_distinct_kept(archive.tree(), first);
        }
    }
    match made {
        Ok(_) => {},
        Err(source) => {
            return Err(Error::WriteIndex { path: relpath, source });
        },
    }
    let subdir = hunk_subdir_relpath(band_id, hunk_number);
    let made = archive.create_dir(subdir.as_str());
    proof {
        if crate::archive::bands_distinct(first) {
            assert(crate::archive::no_name_added(archive.tree(), first));
            crate::archive::lemma_distinct_kept(archive.tree(), first);
        }
    }
    match made {
        Ok(_) => {},
        Err(source) => {
            return Err(Error::WriteIndex { path: relpath, source });
        },
    }
    match archive.write_file(relpath.as_str(), compressed.as_slice()) {
        Ok(_) => {},
        Err(source) => {
            return Err(Error::WriteIndex { path: relpath, source });
        },
    }
    monitor.count(Counter::IndexWrites, 1);
    monitor.count(Counter::IndexWriteCompressedBytes, compressed.len());
    Ok(())
}

/// Reads a hunk of the index of a band: gives back what was written as the
/// hunk, or `None` if the band has no hunk of that number.
pub fn read_hunk<T: Transport>(
    archive: &Archive<T>,
    band_id: &BandId,
    hunk_number: u32,
    monitor: &mut CollectMonitor,
) -> (r: Result<Option<Vec<u8>>, Error>)
    requires
        archive.wf(),
    ensures
        final(monitor).reported() == old(monitor).reported(),
        match r {
            Ok(Some(serialized)) => {
                &&& hunk_content(archive.tree(), band_id@, hunk_number) == Some(serialized@)
                &&& final(monitor).counts() == old(monitor).counts().plus(
                    Counter::IndexReads,
                    1,
                ).plus(
                    Counter::IndexReadCompressedBytes,
                    archive.tree().files[hunk_path(band_id@, hunk_number)].len() as usize,
                )
            },
            Ok(None) => {
                &&& !archive.tree().has_file(hunk_path(band_id@, hunk_number))
                &&& final(monitor).counts() == old(monitor).counts()
            },
            Err(e) => {
                &&& final(monitor).counts() == old(monitor).counts()
                &&& match e {
                    Error::ReadIndex { path, source } => path@ == hunk_path(band_id@, hunk_number)
                        && source.kind != crate::transport::ErrorKind::NotFound,
                    Error::Compression { .. } => archive.tree().has_file(
                        hunk_path(band_id@, hunk_number),
                    ) && hunk_content(archive.tree(), band_id@, hunk_number) is None,
                    _ => false,
                }
            },
        },
        T::steady() ==> (r matches Err(e) ==> e is Compression),
        T::steady() ==> (r is Ok <==> !archive.tree().has_file(hunk_path(band_id@, hunk_number))
            || hunk_content(archive.tree(), band_id@, hunk_number) is Some),
{
    let relpath = hunk_relpath(band_id, hunk_number);
    let compressed = match archive.read_file(relpath.as_str()) {
        Ok(compressed) => compressed,
        Err(source) => {
            if source.is_not_found() {
                return Ok(None);
            } else {
                return Err(Error::ReadIndex { path: relpath, source });
            }
        },
    };
    let serialized = match crate::compress::decompress(compressed.as_slice()) {
        Ok(serialized) => serialized,
        Err(e) => {
            return Err(e);
        },
    };
    monitor.count(Counter::IndexReads, 1);
    monitor.count(Counter::IndexReadCompressedBytes, compressed.len());
    Ok(Some(serialized))
}

} // verus!
