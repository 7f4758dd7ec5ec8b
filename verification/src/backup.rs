//! Making a backup: turning the files of a tree into blocks and entries of
//! an index.

use vstd::prelude::*;
use crate::apath::Apath;
use crate::blockdir::BlockDir;
use crate::entry::Entry;
use crate::entry::UnixTime;
use crate::errors::Error;
use crate::index::IndexBuilder;
use crate::index::IndexEntry;
use crate::index::IndexHunk;
use crate::index::Owner;
use crate::kind::Kind;
use crate::monitor::CollectMonitor;
use crate::stats::BackupStats;
use crate::transport::Transport;

verus! {

/// So many entries are put into one hunk of an index.
pub const MAX_ENTRIES_PER_HUNK: usize = 1000;

/// How a backup is to be made.
#[derive(Clone, Copy, Debug, Default, PartialEq, Eq, Structural)]
pub struct BackupOptions {
    /// Store every file again, whatever an earlier index says of it. Blocks
    /// that are there are not written again all the same.
    pub no_index: bool,
}

/// True if a file need not be read again: an earlier index is to be used,
/// and by the kind, the time of modification and the size the file is as its
/// entry in that index says. Whether the blocks of that entry are still
/// there is asked by [`can_reuse_stored`].
pub fn can_reuse<E: Entry>(options: &BackupOptions, entry: &E, basis_entry: &IndexEntry) -> (r: bool)
    ensures
        r == (!options.no_index && crate::entry::unchanged(
            (entry.spec_kind(), entry.spec_mtime(), entry.spec_size()),
            (
                basis_entry.kind,
                UnixTime { secs: basis_entry.mtime, nanos: basis_entry.mtime_nanos },
                basis_entry.size,
            ),
        )),
{
    !options.no_index && crate::entry::is_unchanged_from(entry, basis_entry)
}

/// True if every block that the addresses point to is there. A block that
/// cannot be looked at is taken not to be there.
pub fn blocks_present<T: Transport>(
    block_dir: &mut BlockDir<T>,
    addrs: &Vec<crate::index::Address>,
    monitor: &mut CollectMonitor,
) -> (r: bool)
    requires
        old(block_dir).wf(),
    ensures
        final(block_dir).wf(),
        final(block_dir).tree() == old(block_dir).tree(),
        final(monitor).reported() == old(monitor).reported(),
        r ==> crate::filecontent::all_present(old(block_dir).tree(), addrs.deep_view()),
        T::steady() ==> r == crate::filecontent::all_present(
            old(block_dir).tree(),
            addrs.deep_view(),
        ),
{
    let ghost tree = block_dir.tree();
    let ghost views = addrs.deep_view();
    let mut i: usize = 0;
    while i < addrs.len()
        invariant
            i <= addrs.len(),
            block_dir.wf(),
            block_dir.tree() == tree,
            tree == old(block_dir).tree(),
            views == addrs.deep_view(),
            monitor.reported() == old(monitor).reported(),
            forall|k: int|
                0 <= k < i ==> crate::blockdir::block_present(tree, (#[trigger] views[k]).hash),
        decreases addrs.len() - i,
    {
        assert(views[i as int] == addrs@[i as int]@);
        let found = match block_dir.contains(&addrs[i].hash, monitor) {
            Ok(found) => found,
            Err(_) => false,
        };
        if !found {
            return false;
        }
        i = i + 1;
    }
    true
}

/// True if a file need not be read again, and its blocks need not be
/// written again: by the kind, the time of modification and the size the
/// file is as its entry in an earlier index says, and every block of that
/// entry is there. So a file whose block was lost or emptied is stored
/// again.
pub fn can_reuse_stored<T: Transport, E: Entry>(
    options: &BackupOptions,
    entry: &E,
    basis_entry: &IndexEntry,
    block_dir: &mut BlockDir<T>,
    monitor: &mut CollectMonitor,
) -> (r: bool)
    requires
        old(block_dir).wf(),
    ensures
        final(block_dir).wf(),
        final(block_dir).tree() == old(block_dir).tree(),
        final(monitor).reported() == old(monitor).reported(),
        r ==> !options.no_index && crate::entry::unchanged(
            (entry.spec_kind(), entry.spec_mtime(), entry.spec_size()),
            (
                basis_entry.kind,
                UnixTime { secs: basis_entry.mtime, nanos: basis_entry.mtime_nanos },
                basis_entry.size,
            ),
        ) && crate::filecontent::all_present(old(block_dir).tree(), basis_entry@.addrs),
        T::steady() ==> r == (!options.no_index && crate::entry::unchanged(
            (entry.spec_kind(), entry.spec_mtime(), entry.spec_size()),
            (
                basis_entry.kind,
                UnixTime { secs: basis_entry.mtime, nanos: basis_entry.mtime_nanos },
                basis_entry.size,
            ),
        ) && crate::filecontent::all_present(old(block_dir).tree(), basis_entry@.addrs)),
{
    if can_reuse(options, entry, basis_entry) {
        blocks_present(block_dir, &basis_entry.addrs, monitor)
    } else {
        false
    }
}

/// Finds the entry for a path in an earlier index, `basis`, whose entries up
/// to `at` are known to come before the path. The place comes back of the
/// first entry from `at` on that does not come before the path, and whether
/// that entry is the entry for the path. Where the paths asked for come in
/// order, and the basis is in order, the place serves as `at` for the next
/// path.
pub fn seek_basis(basis: &Vec<IndexEntry>, at: usize, apath: &Apath) -> (r: (usize, bool))
    ensures
        at <= r.0,
        r.0 <= basis@.len() || r.0 == at,
        forall|k: int|
            at <= k < r.0 ==> crate::apath::path_lt((#[trigger] basis@[k]).apath@, apath@),
        r.0 < basis@.len() ==> !crate::apath::path_lt(basis@[r.0 as int].apath@, apath@),
        r.1 == (r.0 < basis@.len() && basis@[r.0 as int].apath@ == apath@),
{
    let mut i: usize = at;
    while i < basis.len() && basis[i].apath.precedes(apath)
        invariant
            at <= i,
            i <= basis@.len() || i == at,
            forall|k: int|
                at <= k < i ==> crate::apath::path_lt((#[trigger] basis@[k]).apath@, apath@),
        decreases basis.len() - i,
    {
        i = i + 1;
    }
    let found = i < basis.len() && basis[i].apath.same_as(apath);
    (i, found)
}

/// Stores the content of a file, and makes the entry of the file.
///
/// The addresses of the entry point to the blocks of the content in order,
/// and to as many bytes as the file has; every block is there afterwards; the
/// hash of the entry is that of the whole content. The only files that the
/// storage gains are those of the blocks of the content, and the figures
/// count each block once, as deduplicated or as written. The content is read
/// back from the addresses as it was, if the blocks that were there before
/// are sound and no block holds other bytes with the hash of a piece.
pub fn store_file<T: Transport>(
    block_dir: &mut BlockDir<T>,
    apath: Apath,
    mtime: UnixTime,
    content: &[u8],
    stats: &mut BackupStats,
    monitor: &mut CollectMonitor,
) -> (r: Result<IndexEntry, Error>)
    requires
        old(block_dir).wf(),
    ensures
        final(block_dir).wf(),
        final(monitor).reported() == old(monitor).reported(),
        forall|h: Seq<u8>|
            crate::blockdir::block_present(old(block_dir).tree(), h)
                ==> crate::blockdir::block_present(final(block_dir).tree(), h),
        final(block_dir).tree().files.dom().subset_of(
            old(block_dir).tree().files.dom().union(
                crate::filecontent::chunk_paths(
                    crate::filecontent::chunks_of(
                        content@,
                        crate::filecontent::MAX_BLOCK_SIZE as nat,
                    ),
                ),
            ),
        ),
        T::steady() ==> r is Ok,
        match r {
            Ok(entry) => {
                &&& *final(stats) == crate::filecontent::stored_figures(
                    old(block_dir).tree(),
                    final(block_dir).tree(),
                    *old(stats),
                    crate::filecontent::chunks_of(
                        content@,
                        crate::filecontent::MAX_BLOCK_SIZE as nat,
                    ),
                )
                &&& entry.apath@ == apath@
                &&& entry.kind == Kind::File
                &&& entry.mtime == mtime.secs
                &&& entry.mtime_nanos == mtime.nanos
                &&& entry.size == Some(content@.len() as u64)
                &&& entry@.addrs == crate::filecontent::addresses_of(
                    crate::filecontent::chunks_of(
                        content@,
                        crate::filecontent::MAX_BLOCK_SIZE as nat,
                    ),
                )
                &&& crate::index::addrs_len(entry@.addrs) == content@.len()
                &&& crate::filecontent::all_present(final(block_dir).tree(), entry@.addrs)
                &&& entry@.content_hash == Some(crate::blockhash::blake2b_digest(content@))
                &&& apath.wf() ==> entry.wf()
                &&& crate::filecontent::present_sound(
                    old(block_dir).tree(),
                    crate::filecontent::chunks_of(
                        content@,
                        crate::filecontent::MAX_BLOCK_SIZE as nat,
                    ),
                ) && crate::filecontent::no_collision(
                    final(block_dir).tree(),
                    crate::filecontent::chunks_of(
                        content@,
                        crate::filecontent::MAX_BLOCK_SIZE as nat,
                    ),
                ) ==> crate::filecontent::read_back(final(block_dir).tree(), entry@.addrs) == Some(
                    content@,
                ) && crate::stored_tree::file_is_sound(final(block_dir).tree(), entry@)
                    && crate::filecontent::restored(final(block_dir).tree(), entry@) == Some(
                    content@,
                )
            },
            Err(e) => e is Transport || e is WriteBlock || e is Compression,
        },
{
    let (addrs, file_hash) = match crate::filecontent::store_file_content(
        block_dir,
        content,
        stats,
        monitor,
    ) {
        Ok(stored) => stored,
        Err(e) => {
            return Err(e);
        },
    };
    Ok(
        IndexEntry {
            apath,
            kind: Kind::File,
            mtime: mtime.secs,
            mtime_nanos: mtime.nanos,
            size: Some(content.len() as u64),
            target: None,
            addrs,
            content_hash: Some(file_hash),
            unix_mode: None,
            owner: Owner { user: None, group: None },
        },
    )
}

/// Takes an entry into the index of a backup. When the entries that are in
/// no hunk yet have become as many as a hunk holds, a hunk is cut and comes
/// back, to be written.
pub fn push_entry(builder: &mut IndexBuilder, entry: IndexEntry) -> (r: Option<IndexHunk>)
    requires
        old(builder).wf(),
        old(builder).hunk_count() < u32::MAX,
        crate::index::may_follow(old(builder).all_entries(), entry@),
    ensures
        final(builder).wf(),
        final(builder).all_entries() == old(builder).all_entries().push(entry@),
        r is Some <==> old(builder).buffered().len() + 1 >= MAX_ENTRIES_PER_HUNK,
        match r {
            Some(hunk) => {
                &&& hunk.number == old(builder).hunk_count()
                &&& hunk.entries.deep_view() == old(builder).buffered().push(entry@)
                &&& final(builder).hunk_count() == old(builder).hunk_count() + 1
                &&& final(builder).buffered().len() == 0
                &&& final(builder).written() == old(builder).written() + old(
                    builder,
                ).buffered().push(entry@)
            },
            None => {
                &&& final(builder).hunk_count() == old(builder).hunk_count()
                &&& final(builder).buffered() == old(builder).buffered().push(entry@)
                &&& final(builder).written() == old(builder).written()
            },
        },
{
    builder.push_entry(entry);
    if builder.buffered_len() >= MAX_ENTRIES_PER_HUNK {
        builder.finish_hunk()
    } else {
        None
    }
}

/// The entries of hunks, one hunk after the other.
pub open spec fn hunk_entries(hunks: Seq<IndexHunk>) -> Seq<crate::index::EntryView>
    decreases hunks.len(),
{
    if hunks.len() == 0 {
        Seq::empty()
    } else {
        hunk_entries(hunks.drop_last()) + hunks.last().entries.deep_view()
    }
}

/// The hunks are those of one index: they are numbered from zero without a
/// gap, none is empty, and each but the last is full.
pub open spec fn hunks_numbered(hunks: Seq<IndexHunk>) -> bool {
    forall|k: int|
        0 <= k < hunks.len() ==> {
            &&& (#[trigger] hunks[k]).number == k
            &&& 0 < hunks[k].entries@.len() <= MAX_ENTRIES_PER_HUNK
            &&& k < hunks.len() - 1 ==> hunks[k].entries@.len() == MAX_ENTRIES_PER_HUNK
        }
}

/// Cuts the entries of a whole index into its hunks. The entries must come
/// in the order of their paths, each path once: where they do not, there is
/// no index, and `None` comes back.
///
/// The hunks hold the entries as they came, so across all hunks the paths are
/// in strictly increasing order; the hunks are numbered from zero without a
/// gap, and none is empty.
pub fn index_hunks(entries: Vec<IndexEntry>) -> (r: Option<Vec<IndexHunk>>)
    requires
        entries@.len() <= u32::MAX,
    ensures
        r is Some <==> crate::index::increasing(entries.deep_view()),
        r matches Some(hunks) ==> hunks_numbered(hunks@) && hunk_entries(hunks@)
            == entries.deep_view(),
{
    let ghost all = entries@;
    let ghost views = entries.deep_view();
    let mut builder = IndexBuilder::new();
    let mut out: Vec<IndexHunk> = Vec::new();
    let mut n: usize = 0;
    proof {
        assert(views.take(0) =~= Seq::<crate::index::EntryView>::empty());
        builder.lemma_parts();
    }
    for entry in it: entries
        invariant
            all == it.seq(),
            views.len() == all.len(),
            all.len() <= u32::MAX,
            forall|k: int| 0 <= k < all.len() ==> views[k] == (#[trigger] all[k])@,
            n == it.index(),
            builder.wf(),
            builder.all_entries() == views.take(n as int),
            builder.hunk_count() == out@.len(),
            out@.len() * MAX_ENTRIES_PER_HUNK + builder.buffered().len() == n,
            builder.buffered().len() < MAX_ENTRIES_PER_HUNK,
            views == entries.deep_view(),
            hunk_entries(out@) == builder.written(),
            forall|k: int|
                0 <= k < out@.len() ==> (#[trigger] out@[k]).number == k && out@[k].entries@.len()
                    == MAX_ENTRIES_PER_HUNK,
    {
        let ghost i = n as int;
        proof {
            assert(views[i] == entry@);
            assert(views.take(i + 1) =~= views.take(i).push(entry@));
            builder.lemma_parts();
        }
        if !builder.can_push(&entry) {
            proof {
                assert(i > 0);
                assert(views.take(i).last() == views[i - 1]);
                assert(!crate::apath::path_lt(views[i - 1].apath, views[i].apath));
            }
            return None;
        }
        let ghost held = out@;
        match push_entry(&mut builder, entry) {
            Some(hunk) => {
                out.push(hunk);
                proof {
                    assert(out@.drop_last() =~= held);
                    assert(hunk.entries.deep_view().len() == hunk.entries@.len());
                }
            },
            None => {},
        }
        n = n + 1;
    }
    proof {
        assert(views.take(n as int) =~= views);
        builder.lemma_parts();
    }
    let ghost held = out@;
    let ghost buffered = builder.buffered();
    let (last, _count) = builder.finish();
    match last {
        Some(hunk) => {
            out.push(hunk);
            proof {
                assert(out@.drop_last() =~= held);
                assert(hunk.entries.deep_view().len() == hunk.entries@.len());
            }
        },
        None => {
            assert(buffered =~= Seq::<crate::index::EntryView>::empty());
            assert(hunk_entries(out@) + buffered =~= hunk_entries(out@));
        },
    }
    Some(out)
}

/// One thing of a source tree, held in memory with what a backup takes of it.
#[derive(Debug)]
pub enum SourceEntry {
    /// A directory.
    Dir { apath: Apath, mtime: UnixTime },
    /// A symlink, and where it points.
    Symlink { apath: Apath, mtime: UnixTime, target: String },
    /// A file, and what it holds.
    File { apath: Apath, mtime: UnixTime, content: Vec<u8> },
}

impl SourceEntry {
    /// The path of the thing.
    pub open spec fn path(self) -> Seq<u8> {
        match self {
            SourceEntry::Dir { apath, .. } => apath@,
            SourceEntry::Symlink { apath, .. } => apath@,
            SourceEntry::File { apath, .. } => apath@,
        }
    }
}

/// The paths of the sources come in strictly increasing order.
pub open spec fn sources_increasing(sources: Seq<SourceEntry>) -> bool {
    forall|i: int, j: int|
        0 <= i < j < sources.len() ==> crate::apath::path_lt(
            (#[trigger] sources[i]).path(),
            (#[trigger] sources[j]).path(),
        )
}

/// The entry is that of the source: it has its path and its kind, it records
/// the time of modification to the nanosecond, the target of a symlink, and
/// the size of a file.
pub open spec fn entry_of_source(source: SourceEntry, entry: crate::index::EntryView) -> bool {
    match source {
        SourceEntry::Dir { apath, mtime } => {
            &&& entry.apath == apath@
            &&& entry.kind == Kind::Dir
            &&& entry.mtime == mtime.secs
            &&& entry.mtime_nanos == mtime.nanos
            &&& entry.size is None
            &&& entry.addrs.len() == 0
        },
        SourceEntry::Symlink { apath, mtime, target } => {
            &&& entry.apath == apath@
            &&& entry.kind == Kind::Symlink
            &&& entry.mtime == mtime.secs
            &&& entry.mtime_nanos == mtime.nanos
            &&& entry.target == Some(target@)
            &&& entry.size is None
            &&& entry.addrs.len() == 0
        },
        SourceEntry::File { apath, mtime, content } => {
            &&& entry.apath == apath@
            &&& entry.kind == Kind::File
            &&& entry.mtime == mtime.secs
            &&& entry.mtime_nanos == mtime.nanos
            &&& entry.size == Some(content@.len() as u64)
        },
    }
}

/// The entries are those of the sources, one for one, and every block that
/// they refer to is in the tree.
pub open spec fn entries_of_sources(
    tree: crate::transport::Tree,
    sources: Seq<SourceEntry>,
    entries: Seq<crate::index::EntryView>,
) -> bool {
    &&& entries.len() == sources.len()
    &&& forall|i: int|
        0 <= i < entries.len() ==> entry_of_source(sources[i], #[trigger] entries[i])
            && crate::filecontent::all_present(tree, entries[i].addrs)
}

/// Makes the entries of a backup of the sources, and stores the content of
/// the files.
///
/// A file that is unchanged since the entry for its path in `basis`, by its
/// time of modification and its size, and whose blocks are all there, is not
/// stored again: its entry is that of the basis. Every other file is stored,
/// as by [`store_file`]. When all is done, every block that an entry refers
/// to is there.
pub fn store_entries<T: Transport>(
    block_dir: &mut BlockDir<T>,
    sources: &Vec<SourceEntry>,
    options: &BackupOptions,
    basis: &Vec<IndexEntry>,
    stats: &mut BackupStats,
    monitor: &mut CollectMonitor,
) -> (r: Result<Vec<IndexEntry>, Error>)
    requires
        old(block_dir).wf(),
    ensures
        final(block_dir).wf(),
        final(monitor).reported() == old(monitor).reported(),
        forall|h: Seq<u8>|
            crate::blockdir::block_present(old(block_dir).tree(), h)
                ==> crate::blockdir::block_present(final(block_dir).tree(), h),
        T::steady() ==> r is Ok,
        match r {
            Ok(entries) => {
                &&& entries_of_sources(final(block_dir).tree(), sources@, entries.deep_view())
                &&& forall|h: Seq<u8>|
                    crate::gc::referenced_by(entries.deep_view()).contains(h)
                        ==> crate::blockdir::block_present(final(block_dir).tree(), h)
                &&& options.no_index ==> forall|i: int|
                    0 <= i < sources@.len() ==> (#[trigger] sources@[i] matches SourceEntry::File {
                        content,
                        ..
                    } ==> entries.deep_view()[i].addrs == crate::filecontent::addresses_of(
                        crate::filecontent::chunks_of(
                            content@,
                            crate::filecontent::MAX_BLOCK_SIZE as nat,
                        ),
                    ) && entries.deep_view()[i].content_hash == Some(
                        crate::blockhash::blake2b_digest(content@),
                    ))
            },
            Err(e) => e is Transport || e is WriteBlock || e is Compression,
        },
{
    let ghost before = block_dir.tree();
    let mut out: Vec<IndexEntry> = Vec::new();
    let mut at: usize = 0;
    let mut i: usize = 0;
    while i < sources.len()
        invariant
            i <= sources.len(),
            block_dir.wf(),
            before == old(block_dir).tree(),
            monitor.reported() == old(monitor).reported(),
            forall|h: Seq<u8>|
                crate::blockdir::block_present(before, h) ==> crate::blockdir::block_present(
                    block_dir.tree(),
                    h,
                ),
            out@.len() == i,
            forall|k: int|
                0 <= k < i ==> entry_of_source(sources@[k], (#[trigger] out@[k])@)
                    && crate::filecontent::all_present(block_dir.tree(), out@[k]@.addrs),
            options.no_index ==> forall|k: int|
                0 <= k < i ==> (#[trigger] sources@[k] matches SourceEntry::File { content, .. }
                    ==> out@[k]@.addrs == crate::filecontent::addresses_of(
                    crate::filecontent::chunks_of(
                        content@,
                        crate::filecontent::MAX_BLOCK_SIZE as nat,
                    ),
                ) && out@[k]@.content_hash == Some(crate::blockhash::blake2b_digest(content@))),
        decreases sources.len() - i,
    {
        let ghost held = out@;
        let ghost tree_before = block_dir.tree();
        let entry = match &sources[i] {
            SourceEntry::Dir { apath, mtime } => IndexEntry::directory(apath.clone(), *mtime),
            SourceEntry::Symlink { apath, mtime, target } => IndexEntry::symlink(
                apath.clone(),
                target.clone(),
                *mtime,
            ),
            SourceEntry::File { apath, mtime, content } => {
                let (next, found) = if at <= basis.len() {
                    seek_basis(basis, at, apath)
                } else {
                    (at, false)
                };
                at = next;
                let candidate = IndexEntry {
                    apath: apath.clone(),
                    kind: Kind::File,
                    mtime: mtime.secs,
                    mtime_nanos: mtime.nanos,
                    size: Some(content.len() as u64),
                    target: None,
                    addrs: Vec::new(),
                    content_hash: None,
                    unix_mode: None,
                    owner: Owner { user: None, group: None },
                };
                let reuse = found && can_reuse_stored(
                    options,
                    &candidate,
                    &basis[at],
                    block_dir,
                    monitor,
                );
                if reuse {
                    basis[at].clone()
                } else {
                    match store_file(block_dir, apath.clone(), *mtime, content.as_slice(), stats, monitor) {
                        Ok(entry) => entry,
                        Err(e) => {
                            return Err(e);
                        },
                    }
                }
            },
        };
        out.push(entry);
        proof {
            assert forall|k: int| 0 <= k < i + 1 implies entry_of_source(
                sources@[k],
                (#[trigger] out@[k])@,
            ) && crate::filecontent::all_present(block_dir.tree(), out@[k]@.addrs) by {
                if k < i {
                    assert(out@[k] == held[k]);
                    assert(crate::filecontent::all_present(tree_before, held[k]@.addrs));
                }
            }
        }
        i = i + 1;
    }
    proof {
        let views = out.deep_view();
        assert forall|k: int| 0 <= k < views.len() implies entry_of_source(
            sources@[k],
            #[trigger] views[k],
        ) && crate::filecontent::all_present(block_dir.tree(), views[k].addrs) by {
            assert(views[k] == out@[k]@);
        }
        assert forall|h: Seq<u8>| crate::gc::referenced_by(views).contains(h) implies crate::blockdir::block_present(
            block_dir.tree(),
            h,
        ) by {
            let k = choose|k: int| 0 <= k < views.len() && crate::gc::refers_to(#[trigger] views[k], h);
            let a = choose|a: int|
                0 <= a < views[k].addrs.len() && a < views[k].addrs.len() && (
                #[trigger] views[k].addrs[a]).hash == h;
            assert(crate::filecontent::all_present(block_dir.tree(), views[k].addrs));
        }
        assert forall|k: int|
            0 <= k < sources@.len() && options.no_index implies (
        #[trigger] sources@[k] matches SourceEntry::File { content, .. } ==> views[k].addrs
            == crate::filecontent::addresses_of(
            crate::filecontent::chunks_of(content@, crate::filecontent::MAX_BLOCK_SIZE as nat),
        ) && views[k].content_hash == Some(crate::blockhash::blake2b_digest(content@))) by {
            assert(views[k] == out@[k]@);
        }
    }
    Ok(out)
}

/// Makes a backup of the sources, held in memory: stores the content of the
/// files, makes the entries, and cuts them into the hunks of the index of
/// the new band.
///
/// The sources must come in the order of their paths. The index then holds
/// one entry for each source, across all hunks in strictly increasing order
/// of the paths; the hunks are numbered from zero without a gap; each entry
/// records the time of modification of its source; and every block that an
/// entry refers to is there.
pub fn backup_tree<T: Transport>(
    block_dir: &mut BlockDir<T>,
    sources: &Vec<SourceEntry>,
    options: &BackupOptions,
    basis: &Vec<IndexEntry>,
    stats: &mut BackupStats,
    monitor: &mut CollectMonitor,
) -> (r: Result<Vec<IndexHunk>, Error>)
    requires
        old(block_dir).wf(),
        sources@.len() <= u32::MAX,
        sources_increasing(sources@),
    ensures
        final(block_dir).wf(),
        final(monitor).reported() == old(monitor).reported(),
        forall|h: Seq<u8>|
            crate::blockdir::block_present(old(block_dir).tree(), h)
                ==> crate::blockdir::block_present(final(block_dir).tree(), h),
        T::steady() ==> r is Ok,
        match r {
            Ok(hunks) => {
                &&& hunks_numbered(hunks@)
                &&& crate::index::increasing(hunk_entries(hunks@))
                &&& entries_of_sources(final(block_dir).tree(), sources@, hunk_entries(hunks@))
                &&& forall|h: Seq<u8>|
                    crate::gc::referenced_by(hunk_entries(hunks@)).contains(h)
                        ==> crate::blockdir::block_present(final(block_dir).tree(), h)
            },
            Err(e) => e is Transport || e is WriteBlock || e is Compression,
        },
{
    let entries = match store_entries(block_dir, sources, options, basis, stats, monitor) {
        Ok(entries) => entries,
        Err(e) => {
            return Err(e);
        },
    };
    proof {
        let views = entries.deep_view();
        assert forall|i: int, j: int| 0 <= i < j < views.len() implies crate::apath::path_lt(
            #[trigger] views[i].apath,
            #[trigger] views[j].apath,
        ) by {
            assert(entry_of_source(sources@[i], views[i]));
            assert(entry_of_source(sources@[j], views[j]));
            assert(crate::apath::path_lt(sources@[i].path(), sources@[j].path()));
        }
    }
    match index_hunks(entries) {
        Some(hunks) => Ok(hunks),
        // The entries are in the order of the sources, so this is not reached.
        None => Ok(Vec::new()),
    }
}

/// The blocks that a backup refers to are there when it has ended: each file
/// left its blocks there when it was stored, and no later step took a block
/// away.
///
/// `trees` are the blocks as they were after each entry, `entries` the
/// entries in the order in which they were made.
pub proof fn lemma_backup_keeps_blocks(
    trees: Seq<crate::transport::Tree>,
    entries: Seq<crate::index::EntryView>,
)
    requires
        trees.len() == entries.len(),
        forall|i: int|
            0 <= i < entries.len() ==> crate::filecontent::all_present(
                #[trigger] trees[i],
                entries[i].addrs,
            ),
        forall|i: int, h: Seq<u8>|
            0 <= i < trees.len() - 1 && crate::blockdir::block_present(#[trigger] trees[i], h)
                ==> #[trigger] crate::blockdir::block_present(trees[i + 1], h),
    ensures
        forall|h: Seq<u8>|
            crate::gc::referenced_by(entries).contains(h) ==> crate::blockdir::block_present(
                trees.last(),
                h,
            ),
{
    assert forall|h: Seq<u8>| crate::gc::referenced_by(entries).contains(h) implies crate::blockdir::block_present(
        trees.last(),
        h,
    ) by {
        let i = choose|i: int| 0 <= i < entries.len() && crate::gc::refers_to(
            #[trigger] entries[i],
            h,
        );
        let k = choose|k: int|
            0 <= k < entries[i].addrs.len() && k < entries[i].addrs.len() && (
            #[trigger] entries[i].addrs[k]).hash == h;
        assert(crate::blockdir::block_present(trees[i], entries[i].addrs[k].hash));
        lemma_stays(trees, i, trees.len() - 1, h);
    }
}

/// A block that is there at one step is there at every later step.
proof fn lemma_stays(trees: Seq<crate::transport::Tree>, from: int, to: int, h: Seq<u8>)
    requires
        0 <= from <= to < trees.len(),
        crate::blockdir::block_present(trees[from], h),
        forall|i: int, h: Seq<u8>|
            0 <= i < trees.len() - 1 && crate::blockdir::block_present(#[trigger] trees[i], h)
                ==> #[trigger] crate::blockdir::block_present(trees[i + 1], h),
    ensures
        crate::blockdir::block_present(trees[to], h),
    decreases to - from,
{
    if from < to {
        assert(crate::blockdir::block_present(trees[from + 1], h));
        lemma_stays(trees, from + 1, to, h);
    }
}

} // verus!
