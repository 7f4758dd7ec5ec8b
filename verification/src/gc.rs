//! Deleting bands, and the blocks that no band refers to any more.
//!
//! While blocks are chosen and deleted a lock file is in the archive. It
//! keeps backups from starting, which might write blocks that are just being
//! chosen for deletion, and other deletions from running.

use vstd::prelude::*;
use crate::archive::Archive;
use crate::bandid::BandId;
use crate::blockhash::BlockHash;
use crate::blockset::BlockSet;
use crate::errors::Error;
use crate::index::IndexEntry;
use crate::monitor::CollectMonitor;
use crate::stats::add_bytes;
use crate::transport::Transport;

verus! {

/// How bands are to be deleted.
#[derive(Clone, Copy, Debug, Default, PartialEq, Eq, Structural)]
pub struct DeleteOptions {
    /// Only find out what would be deleted.
    pub dry_run: bool,
    /// Take the archive even if a lock was left in it.
    pub break_lock: bool,
}

/// What a deletion did.
#[derive(Clone, Copy, Debug, Default, PartialEq, Eq, Structural)]
pub struct DeleteStats {
    /// Blocks that no remaining band refers to.
    pub unreferenced_block_count: usize,
    /// The bytes that those blocks take as they are stored.
    pub unreferenced_block_bytes: u64,
    /// Bands and blocks that could not be deleted.
    pub deletion_errors: usize,
    /// Blocks that were deleted.
    pub deleted_block_count: usize,
    /// Bands that were deleted.
    pub deleted_band_count: usize,
}

/// What the lock file holds: nothing. That the file is there is the lock.
pub open spec fn lock_content() -> Seq<u8> {
    Seq::empty()
}

/// The ids are the same, one by one.
pub open spec fn same_bands(a: Seq<BandId>, b: Seq<BandId>) -> bool {
    a.len() == b.len() && forall|i: int| 0 <= i < a.len() ==> (#[trigger] a[i])@ == b[i]@
}

/// True if the two lists hold the same ids in the same order.
pub fn same_band_ids(a: &Vec<BandId>, b: &Vec<BandId>) -> (r: bool)
    ensures
        r == same_bands(a@, b@),
{
    if a.len() != b.len() {
        return false;
    }
    let mut i: usize = 0;
    while i < a.len()
        invariant
            i <= a.len(),
            a.len() == b.len(),
            forall|k: int| 0 <= k < i ==> (#[trigger] a@[k])@ == b@[k]@,
        decreases a.len() - i,
    {
        if !a[i].same_as(&b[i]) {
            return false;
        }
        i = i + 1;
    }
    true
}

/// True if `band_id` is one of `band_ids`.
pub fn lists_band_id(band_ids: &[BandId], band_id: &BandId) -> (r: bool)
    ensures
        r == crate::archive::lists_band(band_ids@, band_id@),
{
    let mut i: usize = 0;
    while i < band_ids.len()
        invariant
            i <= band_ids.len(),
            forall|k: int| 0 <= k < i ==> (#[trigger] band_ids@[k])@ != band_id@,
        decreases band_ids.len() - i,
    {
        if band_ids[i].same_as(band_id) {
            return true;
        }
        i = i + 1;
    }
    false
}

/// Fails if the archive is locked for garbage collection. A backup asks this
/// before it starts.
pub fn check_no_gc_lock<T: Transport>(archive: &Archive<T>) -> (r: Result<(), Error>)
    requires
        archive.wf(),
    ensures
        match r {
            Ok(_) => !archive.tree().has_file("GC_LOCK"@),
            Err(e) => match e {
                Error::GarbageCollectionLockHeld => archive.tree().has_file("GC_LOCK"@),
                Error::Transport { .. } => true,
                _ => false,
            },
        },
        T::steady() ==> (r is Ok <==> !archive.tree().has_file("GC_LOCK"@)),
        T::steady() ==> (r matches Err(e) ==> e is GarbageCollectionLockHeld),
{
    match archive.is_file("GC_LOCK") {
        Ok(true) => Err(Error::GarbageCollectionLockHeld),
        Ok(false) => Ok(()),
        Err(e) => Err(e),
    }
}

/// The lock of an archive for garbage collection, held.
#[derive(Debug)]
pub struct GarbageCollectionLock {
    /// The bands that the archive had when the lock was taken.
    band_ids: Vec<BandId>,
}

impl GarbageCollectionLock {
    /// The bands that the archive had when the lock was taken.
    pub closed spec fn snapshot(&self) -> Seq<BandId> {
        self.band_ids@
    }

    /// The bands that the archive had when the lock was taken.
    pub fn band_ids(&self) -> (r: &Vec<BandId>)
        ensures
            r@ == self.snapshot(),
    {
        &self.band_ids
    }

    /// Locks the archive for garbage collection: writes the lock file, if
    /// there is none.
    pub fn new<T: Transport>(archive: &mut Archive<T>) -> (r: Result<GarbageCollectionLock, Error>)
        requires
            old(archive).wf(),
        ensures
            final(archive).wf(),
            final(archive).block_dir_value() == old(archive).block_dir_value(),
            final(archive).block_tree() == old(archive).block_tree(),
            crate::archive::bands_distinct(old(archive).tree()) ==> crate::archive::bands_distinct(
                final(archive).tree(),
            ),
            crate::archive::keeps_bands(old(archive).tree(), final(archive).tree()),
            match r {
                Ok(lock) => {
                    &&& !old(archive).tree().has_file("GC_LOCK"@)
                    &&& final(archive).tree() == old(archive).tree().with_file(
                        "GC_LOCK"@,
                        lock_content(),
                    )
                    &&& crate::archive::bands_of(old(archive).tree(), lock.snapshot())
                },
                Err(e) => {
                    &&& final(archive).tree() == old(archive).tree()
                    &&& match e {
                        Error::GarbageCollectionLockHeld => old(archive).tree().has_file(
                            "GC_LOCK"@,
                        ),
                        Error::Transport { .. } | Error::ListBands { .. }
                        | Error::DuplicateBandDirectory { .. } => true,
                        _ => false,
                    }
                },
            },
            old(archive).tree().has_file("GC_LOCK"@) ==> (r matches Err(e) && (
            e is GarbageCollectionLockHeld || e is Transport)),
            T::steady() && old(archive).tree().has_file("GC_LOCK"@) ==> r matches Err(
                Error::GarbageCollectionLockHeld,
            ),
            T::steady() && crate::archive::bands_distinct(old(archive).tree()) ==> (r is Ok
                <==> !old(archive).tree().has_file("GC_LOCK"@)),
    {
        match archive.is_file("GC_LOCK") {
            Ok(true) => {
                return Err(Error::GarbageCollectionLockHeld);
            },
            Ok(false) => {},
            Err(e) => {
                return Err(e);
            },
        }
        let band_ids = match archive.list_band_ids() {
            Ok(band_ids) => band_ids,
            Err(e) => {
                return Err(e);
            },
        };
        let content: Vec<u8> = Vec::new();
        assert(content@ =~= lock_content());
        match archive.write_file("GC_LOCK", content.as_slice()) {
            Ok(_) => Ok(GarbageCollectionLock { band_ids }),
            Err(source) => Err(Error::Transport { source }),
        }
    }

    /// Takes the lock even if one is in the archive: removes the lock file,
    /// if there is one, and locks the archive.
    pub fn break_lock<T: Transport>(archive: &mut Archive<T>) -> (r: Result<
        GarbageCollectionLock,
        Error,
    >)
        requires
            old(archive).wf(),
        ensures
            final(archive).wf(),
            final(archive).block_dir_value() == old(archive).block_dir_value(),
            final(archive).block_tree() == old(archive).block_tree(),
            crate::archive::bands_distinct(old(archive).tree()) ==> crate::archive::bands_distinct(
                final(archive).tree(),
            ),
            crate::archive::keeps_bands(old(archive).tree(), final(archive).tree()),
            match r {
                Ok(lock) => {
                    &&& final(archive).tree() == old(archive).tree().with_file(
                        "GC_LOCK"@,
                        lock_content(),
                    )
                    &&& crate::archive::bands_of(
                        old(archive).tree().without_file("GC_LOCK"@),
                        lock.snapshot(),
                    )
                },
                Err(e) => {
                    &&& final(archive).tree() == old(archive).tree() || final(archive).tree()
                        == old(archive).tree().without_file("GC_LOCK"@)
                    &&& e is Transport || e is ListBands || e is DuplicateBandDirectory
                },
            },
            T::steady() && crate::archive::bands_distinct(old(archive).tree()) ==> r is Ok,
            T::steady() && r is Err ==> !final(archive).tree().has_file("GC_LOCK"@),
    {
        match archive.is_file("GC_LOCK") {
            Ok(true) => {
                match archive.remove_file("GC_LOCK") {
                    Ok(_) => {},
                    Err(source) => {
                        return Err(Error::Transport { source });
                    },
                }
                proof {
                    if crate::archive::bands_distinct(old(archive).tree()) {
                        crate::archive::lemma_distinct_part(archive.tree(), old(archive).tree());
                    }
                }
            },
            Ok(false) => {
                assert(archive.tree().without_file("GC_LOCK"@).files =~= archive.tree().files);
            },
            Err(e) => {
                return Err(e);
            },
        }
        let ghost cleared = archive.tree();
        match GarbageCollectionLock::new(archive) {
            Ok(lock) => {
                proof {
                    assert(cleared.with_file("GC_LOCK"@, lock_content()).files
                        =~= old(archive).tree().with_file("GC_LOCK"@, lock_content()).files);
                }
                Ok(lock)
            },
            Err(e) => Err(e),
        }
    }

    /// Checks that the archive has the bands that it had when the lock was
    /// taken: that nothing else wrote to the archive meanwhile.
    pub fn check<T: Transport>(&self, archive: &Archive<T>) -> (r: Result<(), Error>)
        requires
            archive.wf(),
        ensures
            match r {
                Ok(_) => crate::archive::bands_of(archive.tree(), self.snapshot()),
                Err(e) => e is DeleteWithConcurrentActivity || e is ListBands
                    || e is DuplicateBandDirectory,
            },
            T::steady() && crate::archive::bands_distinct(archive.tree()) ==> (r is Ok
                <==> crate::archive::bands_of(archive.tree(), self.snapshot())),
            T::steady() && crate::archive::bands_distinct(archive.tree()) ==> (r matches Err(e)
                ==> e is DeleteWithConcurrentActivity),
    {
        let now = match archive.list_band_ids() {
            Ok(now) => now,
            Err(e) => {
                return Err(e);
            },
        };
        proof {
            if crate::archive::bands_of(archive.tree(), self.snapshot()) {
                lemma_bands_listed_once(archive.tree(), now@, self.snapshot());
            }
        }
        if same_band_ids(&now, &self.band_ids) {
            proof {
                lemma_same_bands_of(archive.tree(), now@, self.band_ids@);
            }
            Ok(())
        } else {
            Err(Error::DeleteWithConcurrentActivity)
        }
    }

    /// Gives the lock up: removes the lock file.
    pub fn release<T: Transport>(self, archive: &mut Archive<T>) -> (r: Result<(), Error>)
        requires
            old(archive).wf(),
        ensures
            final(archive).wf(),
            final(archive).block_dir_value() == old(archive).block_dir_value(),
            final(archive).block_tree() == old(archive).block_tree(),
            crate::archive::bands_distinct(old(archive).tree()) ==> crate::archive::bands_distinct(
                final(archive).tree(),
            ),
            crate::archive::keeps_bands(old(archive).tree(), final(archive).tree()),
            match r {
                Ok(_) => final(archive).tree() == old(archive).tree().without_file("GC_LOCK"@),
                Err(e) => e is Transport && final(archive).tree() == old(archive).tree(),
            },
            T::steady() ==> (r is Ok <==> old(archive).tree().has_file("GC_LOCK"@)),
    {
        match archive.remove_file("GC_LOCK") {
            Ok(_) => Ok(()),
            Err(source) => Err(Error::Transport { source }),
        }
    }
}

/// Two lists in order that list the same ids are the same.
pub proof fn lemma_listed_alike(a: Seq<BandId>, b: Seq<BandId>)
    requires
        crate::archive::bands_increasing(a),
        crate::archive::bands_increasing(b),
        forall|id: Seq<u32>| crate::archive::lists_band(a, id) <==> crate::archive::lists_band(b, id),
    ensures
        same_bands(a, b),
    decreases a.len(),
{
    if a.len() == 0 {
        if b.len() > 0 {
            assert(crate::archive::lists_band(b, b[0]@));
            assert(crate::archive::lists_band(a, b[0]@));
        }
    } else {
        let la = a.len() - 1;
        assert(crate::archive::lists_band(a, a[la]@));
        assert(crate::archive::lists_band(b, a[la]@));
        let lb = b.len() - 1;
        let j = choose|j: int| 0 <= j < b.len() && (#[trigger] b[j])@ == a[la]@;
        assert(crate::archive::lists_band(b, b[lb]@));
        let i = choose|i: int| 0 <= i < a.len() && (#[trigger] a[i])@ == b[lb]@;
        if a[la]@ != b[lb]@ {
            assert(crate::bandid::band_lt(b[j]@, b[lb]@));
            assert(crate::bandid::band_lt(a[i]@, a[la]@));
            crate::bandid::lemma_band_lt_transitive(a[la]@, b[lb]@, a[la]@);
            crate::bandid::lemma_band_lt_irreflexive(a[la]@);
        }
        let fa = a.drop_last();
        let fb = b.drop_last();
        assert forall|id: Seq<u32>| crate::archive::lists_band(fa, id) implies crate::archive::lists_band(
            fb,
            id,
        ) by {
            let k = choose|k: int| 0 <= k < fa.len() && (#[trigger] fa[k])@ == id;
            assert(a[k]@ == id);
            assert(crate::archive::lists_band(a, id));
            let m = choose|m: int| 0 <= m < b.len() && (#[trigger] b[m])@ == id;
            if m == lb {
                assert(crate::bandid::band_lt(a[k]@, a[la]@));
                crate::bandid::lemma_band_lt_irreflexive(id);
            }
            assert(fb[m]@ == id);
        }
        assert forall|id: Seq<u32>| crate::archive::lists_band(fb, id) implies crate::archive::lists_band(
            fa,
            id,
        ) by {
            let k = choose|k: int| 0 <= k < fb.len() && (#[trigger] fb[k])@ == id;
            assert(b[k]@ == id);
            assert(crate::archive::lists_band(b, id));
            let m = choose|m: int| 0 <= m < a.len() && (#[trigger] a[m])@ == id;
            if m == la {
                assert(crate::bandid::band_lt(b[k]@, b[lb]@));
                crate::bandid::lemma_band_lt_irreflexive(id);
            }
            assert(fa[m]@ == id);
        }
        assert forall|x: int, y: int| 0 <= x < y < fa.len() implies crate::bandid::band_lt(
            (#[trigger] fa[x])@,
            (#[trigger] fa[y])@,
        ) by {
            assert(crate::bandid::band_lt(a[x]@, a[y]@));
        }
        assert forall|x: int, y: int| 0 <= x < y < fb.len() implies crate::bandid::band_lt(
            (#[trigger] fb[x])@,
            (#[trigger] fb[y])@,
        ) by {
            assert(crate::bandid::band_lt(b[x]@, b[y]@));
        }
        lemma_listed_alike(fa, fb);
        assert forall|x: int| 0 <= x < a.len() implies (#[trigger] a[x])@ == b[x]@ by {
            if x < la {
                assert(fa[x]@ == fb[x]@);
            }
        }
    }
}

/// The bands of a tree make one list.
pub proof fn lemma_bands_listed_once(tree: crate::transport::Tree, a: Seq<BandId>, b: Seq<BandId>)
    requires
        crate::archive::bands_of(tree, a),
        crate::archive::bands_of(tree, b),
    ensures
        same_bands(a, b),
{
    assert forall|id: Seq<u32>| crate::archive::lists_band(a, id) implies crate::archive::lists_band(
        b,
        id,
    ) by {
        let k = choose|k: int| 0 <= k < a.len() && (#[trigger] a[k])@ == id;
        assert(crate::archive::has_band_dir(tree, a[k]@));
        let name = choose|name: Seq<char>| crate::archive::band_dir_of(tree, name, id);
        assert(crate::archive::band_dir_of(tree, name, id));
    }
    assert forall|id: Seq<u32>| crate::archive::lists_band(b, id) implies crate::archive::lists_band(
        a,
        id,
    ) by {
        let k = choose|k: int| 0 <= k < b.len() && (#[trigger] b[k])@ == id;
        assert(crate::archive::has_band_dir(tree, b[k]@));
        let name = choose|name: Seq<char>| crate::archive::band_dir_of(tree, name, id);
        assert(crate::archive::band_dir_of(tree, name, id));
    }
    lemma_listed_alike(a, b);
}

/// Lists of the same ids are lists of the same bands.
pub proof fn lemma_same_bands_of(tree: crate::transport::Tree, a: Seq<BandId>, b: Seq<BandId>)
    requires
        crate::archive::bands_of(tree, a),
        same_bands(a, b),
    ensures
        crate::archive::bands_of(tree, b),
{
    assert forall|i: int, j: int| 0 <= i < j < b.len() implies crate::bandid::band_lt(
        (#[trigger] b[i])@,
        (#[trigger] b[j])@,
    ) by {
        assert(crate::bandid::band_lt(a[i]@, a[j]@));
    }
    assert forall|i: int| 0 <= i < b.len() implies crate::archive::has_band_dir(
        tree,
        (#[trigger] b[i])@,
    ) by {
        assert(crate::archive::has_band_dir(tree, a[i]@));
    }
    assert forall|name: Seq<char>, id: Seq<u32>| #[trigger]
        crate::archive::band_dir_of(tree, name, id) implies crate::archive::lists_band(b, id) by {
        assert(crate::archive::lists_band(a, id));
        let k = choose|k: int| 0 <= k < a.len() && (#[trigger] a[k])@ == id;
        assert(b[k]@ == id);
    }
}

/// One of the first `n` of the addresses points into the block `hash`.
pub open spec fn points_into(addrs: Seq<crate::index::AddressView>, n: int, hash: Seq<u8>) -> bool {
    exists|k: int| 0 <= k < n && k < addrs.len() && (#[trigger] addrs[k]).hash == hash
}

/// The entry refers to the block `hash`.
pub open spec fn refers_to(entry: crate::index::EntryView, hash: Seq<u8>) -> bool {
    points_into(entry.addrs, entry.addrs.len() as int, hash)
}

/// The hashes of the blocks that the entries refer to.
pub open spec fn referenced_by(entries: Seq<crate::index::EntryView>) -> Set<Seq<u8>> {
    Set::new(
        |h: Seq<u8>| exists|i: int| 0 <= i < entries.len() && refers_to(#[trigger] entries[i], h),
    )
}

/// One more address points into one more block.
pub proof fn lemma_points_into_more(addrs: Seq<crate::index::AddressView>, n: int, hash: Seq<u8>)
    requires
        0 <= n < addrs.len(),
    ensures
        points_into(addrs, n + 1, hash) <==> points_into(addrs, n, hash) || addrs[n].hash == hash,
{
    if points_into(addrs, n + 1, hash) {
        let k = choose|k: int| 0 <= k < n + 1 && k < addrs.len() && (#[trigger] addrs[k]).hash == hash;
        if k < n {
            assert(points_into(addrs, n, hash));
        }
    }
    if points_into(addrs, n, hash) {
        let k = choose|k: int| 0 <= k < n && k < addrs.len() && (#[trigger] addrs[k]).hash == hash;
        assert(addrs[k].hash == hash);
    }
    if addrs[n].hash == hash {
        assert(points_into(addrs, n + 1, hash));
    }
}

/// One more entry refers to what it refers to, and to what the entries
/// before refer to.
pub proof fn lemma_referenced_more(entries: Seq<crate::index::EntryView>, n: int, hash: Seq<u8>)
    requires
        0 <= n < entries.len(),
    ensures
        referenced_by(entries.take(n + 1)).contains(hash) <==> referenced_by(
            entries.take(n),
        ).contains(hash) || refers_to(entries[n], hash),
{
    let front = entries.take(n);
    let more = entries.take(n + 1);
    if referenced_by(more).contains(hash) {
        let i = choose|i: int| 0 <= i < more.len() && refers_to(#[trigger] more[i], hash);
        if i < n {
            assert(front[i] == more[i]);
        }
    }
    if referenced_by(front).contains(hash) {
        let i = choose|i: int| 0 <= i < front.len() && refers_to(#[trigger] front[i], hash);
        assert(more[i] == front[i]);
    }
    if refers_to(entries[n], hash) {
        assert(more[n] == entries[n]);
    }
}

/// Puts into `set` the hashes of the blocks that the entries refer to.
pub fn add_referenced(set: &mut BlockSet, entries: &Vec<IndexEntry>)
    requires
        old(set).wf(),
    ensures
        final(set).wf(),
        final(set)@ == old(set)@.union(referenced_by(entries.deep_view())),
{
    let ghost views = entries.deep_view();
    let ghost start = set@;
    let mut i: usize = 0;
    assert(set@ =~= start.union(referenced_by(views.take(0))));
    while i < entries.len()
        invariant
            i <= entries.len(),
            set.wf(),
            views == entries.deep_view(),
            start == old(set)@,
            set@ == start.union(referenced_by(views.take(i as int))),
        decreases entries.len() - i,
    {
        let addrs = &entries[i].addrs;
        let ghost row = views[i as int].addrs;
        let ghost at_row = set@;
        assert(row == addrs.deep_view());
        let mut j: usize = 0;
        while j < addrs.len()
            invariant
                j <= addrs.len(),
                set.wf(),
                row == addrs.deep_view(),
                forall|h: Seq<u8>|
                    #[trigger] set@.contains(h) <==> at_row.contains(h) || points_into(
                        row,
                        j as int,
                        h,
                    ),
            decreases addrs.len() - j,
        {
            let ghost before = set@;
            set.insert(addrs[j].hash.clone());
            proof {
                assert(row[j as int].hash == addrs@[j as int].hash@);
                assert forall|h: Seq<u8>| #[trigger]
                    set@.contains(h) <==> at_row.contains(h) || points_into(
                        row,
                        j as int + 1,
                        h,
                    ) by {
                    lemma_points_into_more(row, j as int, h);
                    assert(before.contains(h) <==> at_row.contains(h) || points_into(
                        row,
                        j as int,
                        h,
                    ));
                }
            }
            j = j + 1;
        }
        proof {
            assert(row.len() == addrs@.len());
            assert forall|h: Seq<u8>| #[trigger]
                set@.contains(h) <==> start.union(
                    referenced_by(views.take(i as int + 1)),
                ).contains(h) by {
                lemma_referenced_more(views, i as int, h);
                assert(set@.contains(h) <==> at_row.contains(h) || points_into(
                    row,
                    addrs@.len() as int,
                    h,
                ));
                assert(at_row.contains(h) <==> start.contains(h) || referenced_by(
                    views.take(i as int),
                ).contains(h));
            }
            assert(set@ =~= start.union(referenced_by(views.take(i as int + 1))));
        }
        i = i + 1;
    }
    assert(views.take(i as int) =~= views);
}

/// Picks the blocks that nothing refers to: those of `present` that are not
/// in `referenced`, each once, in the order of their hashes.
pub fn unreferenced(present: Vec<BlockHash>, referenced: &BlockSet) -> (r: Vec<BlockHash>)
    requires
        referenced.wf(),
    ensures
        crate::blockset::hashes_increasing(r@),
        crate::blockset::hash_set(r@) == crate::blockset::hash_set(present@).difference(
            referenced@,
        ),
        forall|i: int|
            0 <= i < r@.len() ==> (#[trigger] r@[i])@.len()
                == crate::blockhash::BLAKE_HASH_SIZE_BYTES,
{
    let ghost listed = crate::blockset::hash_set(present@);
    let present = BlockSet::from_hashes(present);
    let count = present.len();
    let mut out: Vec<BlockHash> = Vec::new();
    let ghost mut picked: Seq<int> = Seq::empty();
    let mut i: usize = 0;
    proof {
        present.lemma_ordered();
    }
    let ghost ordered = present.ordered();
    while i < count
        invariant
            i <= count,
            count == ordered.len(),
            ordered == present.ordered(),
            crate::blockset::hashes_increasing(ordered),
            referenced.wf(),
            picked.len() == out@.len(),
            forall|j: int|
                0 <= j < picked.len() ==> 0 <= #[trigger] picked[j] < i && out@[j]@
                    == ordered[picked[j]]@ && !referenced@.contains(out@[j]@),
            forall|j: int, k: int| 0 <= j < k < picked.len() ==> picked[j] < picked[k],
            forall|k: int|
                0 <= k < i && !referenced@.contains((#[trigger] ordered[k])@) ==> picked.contains(k),
        decreases count - i,
    {
        let hash = present.get(i);
        if !referenced.contains(hash) {
            let ghost held = out@;
            out.push(hash.clone());
            proof {
                let before = picked;
                picked = picked.push(i as int);
                assert(forall|j: int| 0 <= j < held.len() ==> out@[j] == held[j]);
                assert forall|k: int|
                    0 <= k < i + 1 && !referenced@.contains(
                        (#[trigger] ordered[k])@,
                    ) implies picked.contains(k) by {
                    if k < i {
                        assert(before.contains(k));
                        let j = choose|j: int| 0 <= j < before.len() && before[j] == k;
                        assert(picked[j] == k);
                    } else {
                        assert(picked[picked.len() - 1] == k);
                    }
                }
            }
        }
        i = i + 1;
    }
    proof {
        let kept = out@;
        assert forall|x: int| 0 <= x < kept.len() implies (#[trigger] kept[x])@.len()
            == crate::blockhash::BLAKE_HASH_SIZE_BYTES by {
            present.lemma_member_len(ordered[picked[x]]@);
        }
        assert forall|a: int, b: int| 0 <= a < b < kept.len() implies crate::blockset::bytes_lt(
            (#[trigger] kept[a])@,
            (#[trigger] kept[b])@,
        ) by {
            assert(picked[a] < picked[b]);
            assert(crate::blockset::bytes_lt(ordered[picked[a]]@, ordered[picked[b]]@));
        }
        assert forall|h: Seq<u8>| crate::blockset::hash_set(kept).contains(h) <==> listed.difference(
            referenced@,
        ).contains(h) by {
            if crate::blockset::hash_set(kept).contains(h) {
                let j = choose|j: int| 0 <= j < kept.len() && (#[trigger] kept[j])@ == h;
                assert(ordered[picked[j]]@ == h);
                assert(present@.contains(h));
            }
            if listed.difference(referenced@).contains(h) {
                assert(present@.contains(h));
                let k = choose|k: int| 0 <= k < ordered.len() && (#[trigger] ordered[k])@ == h;
                assert(picked.contains(k));
                let j = choose|j: int| 0 <= j < picked.len() && picked[j] == k;
                assert(kept[j]@ == h);
            }
        }
        assert(crate::blockset::hash_set(kept) =~= listed.difference(referenced@));
    }
    out
}

/// What is to be done to delete bands, once the archive is locked.
#[derive(Debug)]
pub struct DeletePlan {
    lock: GarbageCollectionLock,
    /// The bands that stay. What they refer to must not be deleted.
    keep: Vec<BandId>,
}

impl DeletePlan {
    /// The bands that the archive had when it was locked.
    pub closed spec fn snapshot(&self) -> Seq<BandId> {
        self.lock.snapshot()
    }

    /// The bands that stay.
    pub closed spec fn kept(&self) -> Seq<BandId> {
        self.keep@
    }

    /// The bands that stay. Their indexes tell which blocks are referred to.
    pub fn keep(&self) -> (r: &Vec<BandId>)
        ensures
            r@ == self.kept(),
    {
        &self.keep
    }
}

/// `id` is the last band of `tree`, it is incomplete, and it is none of
/// `targets`: a backup may still be writing to it.
pub open spec fn open_last_band(
    tree: crate::transport::Tree,
    targets: Seq<BandId>,
    id: Seq<u32>,
) -> bool {
    &&& crate::archive::has_band_dir(tree, id)
    &&& forall|name: Seq<char>, other: Seq<u32>| #[trigger]
        crate::archive::band_dir_of(tree, name, other) ==> other == id || crate::bandid::band_lt(
            other,
            id,
        )
    &&& !crate::archive::lists_band(targets, id)
    &&& !tree.has_file(crate::archive::band_tail_path(id))
}

/// The last of the bands of a tree is its last band.
pub proof fn lemma_last_listed(tree: crate::transport::Tree, ids: Seq<BandId>, id: Seq<u32>)
    requires
        crate::archive::bands_of(tree, ids),
    ensures
        ids.len() > 0 ==> crate::archive::has_band_dir(tree, ids.last()@) && forall|
            name: Seq<char>,
            other: Seq<u32>,
        | #[trigger]
            crate::archive::band_dir_of(tree, name, other) ==> other == ids.last()@
                || crate::bandid::band_lt(other, ids.last()@),
        ids.len() == 0 ==> !crate::archive::has_band_dir(tree, id),
{
    if ids.len() > 0 {
        assert forall|name: Seq<char>, other: Seq<u32>| #[trigger]
            crate::archive::band_dir_of(tree, name, other) implies other == ids.last()@
            || crate::bandid::band_lt(other, ids.last()@) by {
            assert(crate::archive::lists_band(ids, other));
            let k = choose|k: int| 0 <= k < ids.len() && (#[trigger] ids[k])@ == other;
            if k < ids.len() - 1 {
                assert(crate::bandid::band_lt(ids[k]@, ids[ids.len() - 1]@));
            }
        }
    } else {
        if crate::archive::has_band_dir(tree, id) {
            let name = choose|name: Seq<char>| crate::archive::band_dir_of(tree, name, id);
            assert(crate::archive::lists_band(ids, id));
        }
    }
}

/// A band that is last and incomplete is the last of the bands listed.
pub proof fn lemma_open_last_is_last(
    tree: crate::transport::Tree,
    ids: Seq<BandId>,
    targets: Seq<BandId>,
    id: Seq<u32>,
)
    requires
        crate::archive::bands_of(tree, ids),
        open_last_band(tree, targets, id),
    ensures
        ids.len() > 0,
        ids.last()@ == id,
{
    let name = choose|name: Seq<char>| crate::archive::band_dir_of(tree, name, id);
    assert(crate::archive::lists_band(ids, id));
    let k = choose|k: int| 0 <= k < ids.len() && (#[trigger] ids[k])@ == id;
    let last = ids[ids.len() - 1]@;
    assert(crate::archive::has_band_dir(tree, ids[ids.len() - 1]@));
    let other = choose|other: Seq<char>| crate::archive::band_dir_of(tree, other, last);
    assert(crate::archive::band_dir_of(tree, other, last));
    if k < ids.len() - 1 {
        assert(crate::bandid::band_lt(ids[k]@, ids[ids.len() - 1]@));
        if last != id {
            crate::bandid::lemma_band_lt_transitive(id, last, id);
        }
        crate::bandid::lemma_band_lt_irreflexive(id);
    }
}

/// The bands of a tree are those of any tree with the same directories.
pub proof fn lemma_bands_of_dirs(a: crate::transport::Tree, b: crate::transport::Tree, ids: Seq<BandId>)
    requires
        a.dirs == b.dirs,
        crate::archive::bands_of(a, ids),
    ensures
        crate::archive::bands_of(b, ids),
{
    assert forall|i: int| 0 <= i < ids.len() implies crate::archive::has_band_dir(
        b,
        (#[trigger] ids[i])@,
    ) by {
        let name = choose|name: Seq<char>| crate::archive::band_dir_of(a, name, ids[i]@);
        assert(crate::archive::band_dir_of(b, name, ids[i]@));
    }
    assert forall|name: Seq<char>, id: Seq<u32>| #[trigger]
        crate::archive::band_dir_of(b, name, id) implies crate::archive::lists_band(ids, id) by {
        assert(crate::archive::band_dir_of(a, name, id));
    }
}

/// The first step of deleting bands: locks the archive, and finds the bands
/// that stay.
///
/// Nothing is deleted while the last band is incomplete, unless that band is
/// to be deleted itself: a backup may still be writing to it. The lock is
/// looked at first: where it is held and not to be broken, that is the
/// error. On a steady transport, with one directory for each band, these are
/// the only ways to fail.
pub fn begin_delete<T: Transport>(
    archive: &mut Archive<T>,
    delete_band_ids: &[BandId],
    options: &DeleteOptions,
) -> (r: Result<DeletePlan, Error>)
    requires
        old(archive).wf(),
    ensures
        final(archive).wf(),
        final(archive).block_dir_value() == old(archive).block_dir_value(),
            final(archive).block_tree() == old(archive).block_tree(),
        forall|p: Seq<char>|
            p != "GC_LOCK"@ ==> (final(archive).tree().has_file(p) <==> old(archive).tree().has_file(
                p,
            )),
        forall|p: Seq<char>|
            p != "GC_LOCK"@ && #[trigger] old(archive).tree().has_file(p)
                ==> final(archive).tree().files[p] == old(archive).tree().files[p],
        final(archive).tree().dirs == old(archive).tree().dirs,
        crate::archive::bands_distinct(old(archive).tree()) ==> crate::archive::bands_distinct(
            final(archive).tree(),
        ),
        crate::archive::keeps_bands(old(archive).tree(), final(archive).tree()),
        match r {
            Ok(plan) => {
                &&& final(archive).tree() == old(archive).tree().with_file(
                    "GC_LOCK"@,
                    lock_content(),
                )
                &&& crate::archive::bands_of(final(archive).tree(), plan.snapshot())
                &&& crate::archive::bands_increasing(plan.kept())
                &&& !options.break_lock ==> !old(archive).tree().has_file("GC_LOCK"@)
                &&& forall|i: int|
                    0 <= i < plan.kept().len() ==> crate::archive::lists_band(
                        plan.snapshot(),
                        (#[trigger] plan.kept()[i])@,
                    ) && !crate::archive::lists_band(delete_band_ids@, plan.kept()[i]@)
                &&& forall|i: int|
                    0 <= i < plan.snapshot().len() && !crate::archive::lists_band(
                        delete_band_ids@,
                        (#[trigger] plan.snapshot()[i])@,
                    ) ==> crate::archive::lists_band(plan.kept(), plan.snapshot()[i]@)
            },
            Err(e) => match e {
                Error::GarbageCollectionLockHeld => !options.break_lock && old(
                    archive,
                ).tree().has_file("GC_LOCK"@) && final(archive).tree() == old(archive).tree(),
                Error::DeleteWithIncompleteBackup { band_id } => open_last_band(
                    old(archive).tree(),
                    delete_band_ids@,
                    band_id@,
                ),
                Error::Transport { .. } | Error::ListBands { .. } | Error::DuplicateBandDirectory {
                    ..
                } => true,
                _ => false,
            },
        },
        !options.break_lock && old(archive).tree().has_file("GC_LOCK"@) ==> (r matches Err(e) && (
        e is GarbageCollectionLockHeld || e is Transport)),
        T::steady() && !options.break_lock && old(archive).tree().has_file("GC_LOCK"@)
            ==> r matches Err(Error::GarbageCollectionLockHeld),
        T::steady() && crate::archive::bands_distinct(old(archive).tree()) ==> (r matches Err(e)
            ==> e is GarbageCollectionLockHeld || e is DeleteWithIncompleteBackup),
        T::steady() && crate::archive::bands_distinct(old(archive).tree()) ==> (r is Ok <==> (
        options.break_lock || !old(archive).tree().has_file("GC_LOCK"@)) && forall|id: Seq<u32>|
            !#[trigger] open_last_band(old(archive).tree(), delete_band_ids@, id)),
        T::steady() && r is Err ==> !final(archive).tree().has_file("GC_LOCK"@) || (
        !options.break_lock && old(archive).tree().has_file("GC_LOCK"@)),
{
    let lock = if options.break_lock {
        match GarbageCollectionLock::break_lock(archive) {
            Ok(lock) => lock,
            Err(e) => {
                return Err(e);
            },
        }
    } else {
        match GarbageCollectionLock::new(archive) {
            Ok(lock) => lock,
            Err(e) => {
                return Err(e);
            },
        }
    };
    let n = lock.band_ids().len();
    let ghost first = old(archive).tree();
    proof {
        if options.break_lock {
            lemma_bands_of_dirs(first.without_file("GC_LOCK"@), first, lock.snapshot());
        }
        lemma_bands_of_dirs(first, archive.tree(), lock.snapshot());
        lemma_last_listed(first, lock.snapshot(), Seq::empty());
        reveal_strlit("GC_LOCK");
        reveal_strlit("/BANDTAIL");
        assert forall|id: Seq<u32>| crate::archive::band_tail_path(id) != "GC_LOCK"@ by {
            assert(crate::archive::band_tail_path(id).last() == 'L');
            assert("GC_LOCK"@.last() == 'K');
        }
    }
    if n > 0 {
        let last = lock.band_ids()[n - 1].clone();
        if !lists_band_id(delete_band_ids, &last) {
            let closed = match archive.band_is_closed(&last) {
                Ok(closed) => closed,
                Err(e) => {
                    let _ = lock.release(archive);
                    return Err(e);
                },
            };
            if !closed {
                let _ = lock.release(archive);
                assert(open_last_band(first, delete_band_ids@, last@));
                return Err(Error::DeleteWithIncompleteBackup { band_id: last });
            }
        }
    }
    proof {
        assert forall|id: Seq<u32>| !#[trigger] open_last_band(first, delete_band_ids@, id) by {
            if open_last_band(first, delete_band_ids@, id) {
                lemma_open_last_is_last(first, lock.snapshot(), delete_band_ids@, id);
            }
        }
    }
    let mut keep: Vec<BandId> = Vec::new();
    let mut i: usize = 0;
    while i < n
        invariant
            i <= n,
            n == lock.snapshot().len(),
            crate::archive::bands_increasing(lock.snapshot()),
            crate::archive::bands_increasing(keep@),
            forall|k: int, j: int|
                0 <= k < keep@.len() && i <= j < n ==> crate::bandid::band_lt(
                    (#[trigger] keep@[k])@,
                    (#[trigger] lock.snapshot()[j])@,
                ),
            forall|k: int|
                0 <= k < keep@.len() ==> crate::archive::lists_band(
                    lock.snapshot(),
                    (#[trigger] keep@[k])@,
                ) && !crate::archive::lists_band(delete_band_ids@, keep@[k]@),
            forall|k: int|
                0 <= k < i && !crate::archive::lists_band(
                    delete_band_ids@,
                    (#[trigger] lock.snapshot()[k])@,
                ) ==> crate::archive::lists_band(keep@, lock.snapshot()[k]@),
        decreases n - i,
    {
        let band_id = &lock.band_ids()[i];
        if !lists_band_id(delete_band_ids, band_id) {
            let ghost before = keep@;
            keep.push(band_id.clone());
            proof {
                let after = keep@;
                assert(after[after.len() - 1]@ == lock.snapshot()[i as int]@);
                assert forall|k: int, j: int|
                    0 <= k < after.len() && i + 1 <= j < n implies crate::bandid::band_lt(
                    (#[trigger] after[k])@,
                    (#[trigger] lock.snapshot()[j])@,
                ) by {
                    if k < before.len() {
                        assert(after[k] == before[k]);
                    } else {
                        assert(crate::bandid::band_lt(
                            lock.snapshot()[i as int]@,
                            lock.snapshot()[j]@,
                        ));
                    }
                }
                assert forall|a: int, b: int| 0 <= a < b < after.len() implies crate::bandid::band_lt(
                    (#[trigger] after[a])@,
                    (#[trigger] after[b])@,
                ) by {
                    if b < before.len() {
                        assert(after[a] == before[a] && after[b] == before[b]);
                    } else {
                        assert(after[a] == before[a]);
                        assert(crate::bandid::band_lt(before[a]@, lock.snapshot()[i as int]@));
                    }
                }
                assert forall|k: int| 0 <= k < after.len() implies crate::archive::lists_band(
                    lock.snapshot(),
                    (#[trigger] after[k])@,
                ) && !crate::archive::lists_band(delete_band_ids@, after[k]@) by {
                    if k < before.len() {
                        assert(after[k] == before[k]);
                    }
                }
                assert forall|k: int|
                    0 <= k < i + 1 && !crate::archive::lists_band(
                        delete_band_ids@,
                        (#[trigger] lock.snapshot()[k])@,
                    ) implies crate::archive::lists_band(after, lock.snapshot()[k]@) by {
                    if k < i {
                        let j = choose|j: int|
                            0 <= j < before.len() && (#[trigger] before[j])@ == lock.snapshot()[k]@;
                        assert(after[j] == before[j]);
                    }
                }
            }
        }
        i = i + 1;
    }
    Ok(DeletePlan { lock, keep })
}

/// The blocks that nothing refers to: the hashes, not in `referenced`, that
/// name a file in a subdirectory of the blocks.
pub open spec fn garbage(blocks: crate::transport::Tree, referenced: Set<Seq<u8>>) -> Set<Seq<u8>> {
    Set::new(
        |h: Seq<u8>|
            h.len() == crate::blockhash::BLAKE_HASH_SIZE_BYTES && !referenced.contains(h)
                && crate::blockdir::is_block_file(blocks, crate::blockhash::hex_text(h)),
    )
}

/// Whatever file is gone from the blocks is the file of a block that is not
/// referred to.
pub open spec fn only_unreferenced_gone(
    before: crate::transport::Tree,
    after: crate::transport::Tree,
    referenced: Set<Seq<u8>>,
) -> bool {
    forall|p: Seq<char>|
        #[trigger] before.has_file(p) && !after.has_file(p) ==> exists|h: Seq<u8>|
            !referenced.contains(h) && p == #[trigger] crate::blockdir::block_path(h)
}

/// `p` is not the lock file, and lies in none of the first `n` bands of
/// `targets`.
pub open spec fn no_target(targets: Seq<BandId>, n: int, p: Seq<char>) -> bool {
    &&& p != "GC_LOCK"@
    &&& forall|k: int|
        0 <= k < n && k < targets.len() ==> !crate::transport::within(
            (#[trigger] targets[k]).name(),
            p,
        )
}

/// What is at `p` is the same in both trees.
pub open spec fn same_at(a: crate::transport::Tree, b: crate::transport::Tree, p: Seq<char>) -> bool {
    &&& a.has_file(p) <==> b.has_file(p)
    &&& a.has_file(p) ==> a.files[p] == b.files[p]
    &&& a.has_dir(p) <==> b.has_dir(p)
}

/// The two trees differ only in the lock file and in the first `n` bands
/// of `targets`: all other bands, and what else the archive holds, are the
/// same.
pub open spec fn targets_only(
    before: crate::transport::Tree,
    after: crate::transport::Tree,
    targets: Seq<BandId>,
    n: int,
) -> bool {
    forall|p: Seq<char>| #[trigger] no_target(targets, n, p) ==> same_at(before, after, p)
}

/// The bytes that the blocks take as they are stored, added up as the
/// figures are.
pub open spec fn stored_bytes(blocks: crate::transport::Tree, hashes: Seq<BlockHash>) -> u64
    decreases hashes.len(),
{
    if hashes.len() == 0 {
        0
    } else {
        crate::stats::summed(
            stored_bytes(blocks, hashes.drop_last()),
            blocks.files[crate::blockdir::block_path(hashes.last()@)].len() as u64,
        )
    }
}

/// `hashes` are the blocks that nothing refers to, in order, and `bytes` is
/// what they take as they are stored, if each is in its place.
pub open spec fn garbage_sized(
    blocks: crate::transport::Tree,
    referenced: Set<Seq<u8>>,
    hashes: Seq<BlockHash>,
    bytes: u64,
) -> bool {
    &&& crate::blockset::hashes_increasing(hashes)
    &&& crate::blockset::hash_set(hashes) == garbage(blocks, referenced)
    &&& (forall|i: int|
        0 <= i < hashes.len() ==> blocks.has_file(
            crate::blockdir::block_path((#[trigger] hashes[i])@),
        )) ==> bytes == stored_bytes(blocks, hashes)
}

/// Every block that nothing refers to is in its place: in the subdirectory
/// that its name begins with.
pub open spec fn garbage_in_place(blocks: crate::transport::Tree, referenced: Set<Seq<u8>>) -> bool {
    forall|h: Seq<u8>| #[trigger]
        garbage(blocks, referenced).contains(h) ==> blocks.has_file(
            crate::blockdir::block_path(h),
        )
}

/// The blocks that nothing refers to take `bytes` as they are stored, if
/// each is in its place.
pub open spec fn garbage_takes(
    blocks: crate::transport::Tree,
    referenced: Set<Seq<u8>>,
    bytes: u64,
) -> bool {
    exists|hashes: Seq<BlockHash>| #[trigger] garbage_sized(blocks, referenced, hashes, bytes)
}

/// Adds up what the blocks take as they are stored. A block whose size the
/// storage does not tell is passed over.
pub fn sum_stored<T: Transport>(archive: &Archive<T>, hashes: &Vec<BlockHash>) -> (r: u64)
    requires
        archive.wf(),
    ensures
        T::steady() && (forall|i: int|
            0 <= i < hashes@.len() ==> archive.block_tree().has_file(
                crate::blockdir::block_path((#[trigger] hashes@[i])@),
            )) ==> r == stored_bytes(archive.block_tree(), hashes@),
{
    let mut total_bytes: u64 = 0;
    let mut i: usize = 0;
    let ghost blocks = archive.block_tree();
    let ghost in_place = forall|i: int|
        0 <= i < hashes@.len() ==> blocks.has_file(
            crate::blockdir::block_path((#[trigger] hashes@[i])@),
        );
    while i < hashes.len()
        invariant
            i <= hashes.len(),
            archive.wf(),
            blocks == archive.block_tree(),
            in_place == (forall|i: int|
                0 <= i < hashes@.len() ==> blocks.has_file(
                    crate::blockdir::block_path((#[trigger] hashes@[i])@),
                )),
            T::steady() && in_place ==> total_bytes == stored_bytes(blocks, hashes@.take(i as int)),
        decreases hashes.len() - i,
    {
        proof {
            archive.lemma_parts();
            assert(hashes@.take(i as int + 1).drop_last() =~= hashes@.take(i as int));
            assert(hashes@.take(i as int + 1).last() == hashes@[i as int]);
        }
        match archive.block_dir().compressed_size(&hashes[i]) {
            Ok(len) => {
                total_bytes = add_bytes(total_bytes, len);
            },
            Err(_) => {},
        }
        i = i + 1;
    }
    assert(hashes@.take(i as int) =~= hashes@);
    total_bytes
}

/// The path of the directory of a band.
pub fn band_dir_relpath(band_id: &BandId) -> (r: String)
    ensures
        r@ == crate::bandid::band_text(band_id@),
{
    band_id.to_string()
}

/// The last step of deleting bands: finds the blocks that nothing refers to,
/// deletes the bands and those blocks, and gives up the lock.
///
/// `referenced` holds the blocks that the bands that stay refer to. No block
/// of `referenced` is deleted. With `dry_run`, nothing is deleted at all.
/// What cannot be deleted is counted, and the deletion goes on. The bands
/// that are not to be deleted, and whatever else the archive holds but the
/// lock file, stay as they are.
///
/// On a steady transport the lock file is gone afterwards, and the deletion
/// fails only if the bands are not those that the archive had when it was
/// locked.
pub fn finish_delete<T: Transport>(
    archive: &mut Archive<T>,
    plan: DeletePlan,
    delete_band_ids: &[BandId],
    referenced: &BlockSet,
    options: &DeleteOptions,
    monitor: &mut CollectMonitor,
) -> (r: Result<DeleteStats, Error>)
    requires
        old(archive).wf(),
        referenced.wf(),
    ensures
        final(archive).wf(),
        forall|h: Seq<u8>|
            referenced@.contains(h) && crate::blockdir::block_present(old(archive).block_tree(), h)
                ==> crate::blockdir::block_present(final(archive).block_tree(), h),
        final(archive).block_tree().part_of(old(archive).block_tree()),
        final(archive).tree().part_of(old(archive).tree()),
        only_unreferenced_gone(
            old(archive).block_tree(),
            final(archive).block_tree(),
            referenced@,
        ),
        options.dry_run ==> final(archive).block_tree() == old(archive).block_tree(),
        options.dry_run ==> final(archive).tree() == old(archive).tree() || final(archive).tree()
            == old(archive).tree().without_file("GC_LOCK"@),
        targets_only(
            old(archive).tree(),
            final(archive).tree(),
            delete_band_ids@,
            delete_band_ids@.len() as int,
        ),
        crate::blockdir::then_errors(old(monitor).reported(), final(monitor).reported()),
        crate::archive::bands_distinct(old(archive).tree()) ==> crate::archive::bands_distinct(
            final(archive).tree(),
        ),
        T::steady() ==> !final(archive).tree().has_file("GC_LOCK"@),
        T::steady() ==> final(monitor).reported() == old(monitor).reported(),
        T::steady() && crate::archive::bands_distinct(old(archive).tree()) ==> (r is Ok
            <==> crate::archive::bands_of(old(archive).tree(), plan.snapshot())),
        match r {
            Ok(stats) => {
                &&& T::steady() && garbage_in_place(old(archive).block_tree(), referenced@)
                    ==> stats.deletion_errors == 0
                &&& !options.dry_run && stats.deletion_errors == 0
                    && final(monitor).reported().len() == old(monitor).reported().len()
                    ==> forall|h: Seq<u8>| #[trigger]
                    garbage(old(archive).block_tree(), referenced@).contains(h)
                        ==> !final(archive).block_tree().has_file(crate::blockdir::block_path(h))
                &&& T::steady() ==> garbage_takes(
                    old(archive).block_tree(),
                    referenced@,
                    stats.unreferenced_block_bytes,
                )
                &&& options.dry_run ==> stats.deleted_block_count == 0 && stats.deleted_band_count
                    == 0 && stats.deletion_errors == 0
                &&& stats.deleted_block_count <= stats.unreferenced_block_count
                &&& stats.deleted_band_count <= delete_band_ids@.len()
                &&& !options.dry_run && stats.deletion_errors == 0 ==> stats.deleted_block_count
                    == stats.unreferenced_block_count && stats.deleted_band_count
                    == delete_band_ids@.len()
                &&& !options.dry_run && stats.deletion_errors == 0 ==> forall|
                    i: int,
                    p: Seq<char>,
                |
                    0 <= i < delete_band_ids@.len() && #[trigger] crate::transport::within(
                        (#[trigger] delete_band_ids@[i]).name(),
                        p,
                    ) ==> !final(archive).tree().has_any(p)
                &&& final(monitor).reported().len() == old(monitor).reported().len() ==> {
                    &&& garbage(old(archive).block_tree(), referenced@).finite()
                    &&& stats.unreferenced_block_count == garbage(
                        old(archive).block_tree(),
                        referenced@,
                    ).len()
                }
            },
            Err(e) => {
                &&& final(archive).block_tree() == old(archive).block_tree()
                &&& e is Transport || e is DeleteWithConcurrentActivity || e is ListBands
                    || e is DuplicateBandDirectory
            },
        },
{
    let ghost blocks_before = archive.block_tree();
    proof {
        archive.lemma_parts();
    }
    let present = match archive.block_dir().blocks(monitor) {
        Ok(present) => present,
        Err(e) => {
            let _ = plan.lock.release(archive);
            proof {
                archive.lemma_parts();
                if crate::archive::bands_distinct(old(archive).tree()) {
                    crate::archive::lemma_distinct_part(archive.tree(), old(archive).tree());
                }
            }
            return Err(e);
        },
    };
    let ghost listed = present@;
    let ghost complete = monitor.reported().len() == old(monitor).reported().len();
    let unref = unreferenced(present, referenced);
    let unref_count = unref.len();
    proof {
        if complete {
            let wanted = garbage(blocks_before, referenced@);
            assert forall|h: Seq<u8>| crate::blockset::hash_set(unref@).contains(h) <==> wanted.contains(
                h,
            ) by {
                if crate::blockset::hash_set(unref@).contains(h) {
                    let k = choose|k: int| 0 <= k < unref@.len() && (#[trigger] unref@[k])@ == h;
                    let x = choose|x: int| 0 <= x < listed.len() && (#[trigger] listed[x])@ == h;
                    assert(crate::blockdir::is_block_file(blocks_before, listed[x].name()));
                }
                if wanted.contains(h) {
                    let name = crate::blockhash::hex_text(h);
                    let dir = choose|dir: Seq<char>|
                        crate::blockdir::block_file_in(blocks_before, dir, name);
                    assert(crate::blockdir::names_hash(listed, name));
                    let x = choose|x: int| 0 <= x < listed.len() && (#[trigger] listed[x]).name() == name;
                    crate::blockhash::lemma_hex_text_injective(listed[x]@, h);
                    assert(crate::blockset::hash_set(listed).contains(h));
                }
            }
            assert(crate::blockset::hash_set(unref@) =~= wanted);
            crate::blockset::lemma_hash_set_len(unref@);
        }
    }
    let total_bytes = sum_stored(archive, &unref);
    proof {
        if T::steady() {
            assert(garbage_sized(blocks_before, referenced@, unref@, total_bytes));
            assert(garbage_takes(blocks_before, referenced@, total_bytes));
        }
    }
    let mut stats = DeleteStats {
        unreferenced_block_count: unref_count,
        unreferenced_block_bytes: total_bytes,
        deletion_errors: 0,
        deleted_block_count: 0,
        deleted_band_count: 0,
    };
    match plan.lock.check(archive) {
        Ok(_) => {},
        Err(e) => {
            let _ = plan.lock.release(archive);
            proof {
                archive.lemma_parts();
                if crate::archive::bands_distinct(old(archive).tree()) {
                    crate::archive::lemma_distinct_part(archive.tree(), old(archive).tree());
                }
            }
            return Err(e);
        },
    }
    if !options.dry_run {
        let mut i: usize = 0;
        while i < delete_band_ids.len()
            invariant
                i <= delete_band_ids.len(),
                archive.wf(),
                archive.block_dir_value() == old(archive).block_dir_value(),
                archive.tree().part_of(old(archive).tree()),
                stats.deleted_band_count <= i,
                stats.deletion_errors <= i,
                stats.deletion_errors == 0 ==> stats.deleted_band_count == i,
                stats.deletion_errors == 0 ==> forall|k: int, p: Seq<char>|
                    0 <= k < i && #[trigger] crate::transport::within(
                        (#[trigger] delete_band_ids@[k]).name(),
                        p,
                    ) ==> !archive.tree().has_any(p),
                stats.deleted_block_count == 0,
                stats.unreferenced_block_count == unref_count,
                T::steady() ==> stats.deletion_errors == 0,
                stats.unreferenced_block_bytes == total_bytes,
                T::steady() ==> garbage_takes(old(archive).block_tree(), referenced@, total_bytes),
                targets_only(old(archive).tree(), archive.tree(), delete_band_ids@, i as int),
            decreases delete_band_ids.len() - i,
        {
            let band_dir = band_dir_relpath(&delete_band_ids[i]);
            let ghost tree_before = archive.tree();
            match archive.remove_dir_all(band_dir.as_str()) {
                Ok(_) => {
                    stats.deleted_band_count = stats.deleted_band_count + 1;
                },
                Err(_) => {
                    stats.deletion_errors = stats.deletion_errors + 1;
                },
            }
            proof {
                assert forall|p: Seq<char>| #[trigger]
                    no_target(delete_band_ids@, i as int + 1, p) implies same_at(
                    old(archive).tree(),
                    archive.tree(),
                    p,
                ) by {
                    assert(no_target(delete_band_ids@, i as int, p));
                    assert(!crate::transport::within(delete_band_ids@[i as int].name(), p));
                    assert(same_at(tree_before, archive.tree(), p));
                }
                assert(archive.tree().part_of(tree_before));
                crate::transport::lemma_part_of_part(
                    archive.tree(),
                    tree_before,
                    old(archive).tree(),
                );
            }
            i = i + 1;
        }
        let bands = delete_band_ids.len();
        let mut i: usize = 0;
        let ghost bands_gone = archive.tree();
        let ghost band_errors = stats.deletion_errors;
        let ghost in_place = T::steady() && garbage_in_place(blocks_before, referenced@);
        let ghost reported_after = monitor.reported();
        proof {
            archive.lemma_parts();
            assert(archive.block_tree() == blocks_before);
            if in_place {
                assert forall|k: int| 0 <= k < unref@.len() implies blocks_before.has_file(
                    crate::blockdir::block_path((#[trigger] unref@[k])@),
                ) by {
                    assert(crate::blockset::hash_set(unref@).contains(unref@[k]@));
                    assert(garbage(blocks_before, referenced@).contains(unref@[k]@));
                }
            }
        }
        while i < unref_count
            invariant
                i <= unref_count,
                unref_count == unref@.len(),
                forall|k: int|
                    0 <= k < unref@.len() ==> (#[trigger] unref@[k])@.len()
                        == crate::blockhash::BLAKE_HASH_SIZE_BYTES,
                archive.wf(),
                referenced.wf(),
                blocks_before == old(archive).block_tree(),
                crate::blockset::hash_set(unref@).disjoint(referenced@),
                archive.block_tree().part_of(blocks_before),
                archive.tree() == bands_gone,
                bands_gone.part_of(old(archive).tree()),
                stats.deletion_errors >= band_errors,
                band_errors == 0 ==> forall|k: int, p: Seq<char>|
                    0 <= k < delete_band_ids@.len() && #[trigger] crate::transport::within(
                        (#[trigger] delete_band_ids@[k]).name(),
                        p,
                    ) ==> !bands_gone.has_any(p),
                only_unreferenced_gone(blocks_before, archive.block_tree(), referenced@),
                stats.deletion_errors == 0 ==> stats.deleted_block_count == i
                    && stats.deleted_band_count == bands,
                forall|h: Seq<u8>|
                    referenced@.contains(h) && crate::blockdir::block_present(blocks_before, h)
                        ==> crate::blockdir::block_present(archive.block_tree(), h),
                stats.deleted_band_count <= bands,
                stats.deleted_block_count <= i,
                stats.unreferenced_block_count == unref_count,
                crate::blockset::hashes_increasing(unref@),
                in_place ==> forall|k: int|
                    i <= k < unref@.len() ==> archive.block_tree().has_file(
                        crate::blockdir::block_path((#[trigger] unref@[k])@),
                    ),
                T::steady() && in_place ==> stats.deletion_errors == band_errors,
                stats.deletion_errors == 0 ==> forall|k: int|
                    0 <= k < i ==> !archive.block_tree().has_file(
                        crate::blockdir::block_path((#[trigger] unref@[k])@),
                    ),
                complete ==> crate::blockset::hash_set(unref@) == garbage(
                    blocks_before,
                    referenced@,
                ),
                monitor.reported() == reported_after,
                complete == (reported_after.len() == old(monitor).reported().len()),
                stats.unreferenced_block_bytes == total_bytes,
                T::steady() ==> garbage_takes(old(archive).block_tree(), referenced@, total_bytes),
                bands == delete_band_ids@.len(),
            decreases unref_count - i,
        {
            let ghost tree_before = archive.block_tree();
            let hash = &unref[i];
            let deleted = delete_one_block(archive, hash);
            proof {
                if in_place {
                    assert forall|k: int| i + 1 <= k < unref@.len() implies archive.block_tree().has_file(
                        crate::blockdir::block_path((#[trigger] unref@[k])@),
                    ) by {
                        assert(tree_before.has_file(crate::blockdir::block_path(unref@[k]@)));
                        assert(crate::blockset::bytes_lt(unref@[i as int]@, unref@[k]@));
                        crate::blockset::lemma_bytes_lt_irreflexive(hash@);
                        if crate::blockdir::block_path(unref@[k]@) == crate::blockdir::block_path(
                            hash@,
                        ) {
                            crate::blockdir::lemma_block_path_injective(unref@[k]@, hash@);
                        }
                    }
                }
                assert(crate::blockset::hash_set(unref@).contains(hash@));
                assert forall|h: Seq<u8>|
                    referenced@.contains(h) && crate::blockdir::block_present(
                        blocks_before,
                        h,
                    ) implies crate::blockdir::block_present(archive.block_tree(), h) by {
                    referenced.lemma_member_len(h);
                    if crate::blockdir::block_path(h) == crate::blockdir::block_path(hash@) {
                        crate::blockdir::lemma_block_path_injective(h, hash@);
                    }
                }
            }
            proof {
                assert forall|p: Seq<char>|
                    #[trigger] blocks_before.has_file(p) && !archive.block_tree().has_file(
                        p,
                    ) implies exists|h: Seq<u8>|
                    !referenced@.contains(h) && p == #[trigger] crate::blockdir::block_path(h) by {
                    if tree_before.has_file(p) {
                        assert(p == crate::blockdir::block_path(hash@));
                    }
                }
            }
            if deleted {
                stats.deleted_block_count = stats.deleted_block_count + 1;
            } else {
                stats.deletion_errors = crate::monitor::count_up(stats.deletion_errors);
            }
            i = i + 1;
        }
    }
    let ghost blocks_after = archive.block_tree();
    let ghost tree_after = archive.tree();
    proof {
        archive.lemma_parts();
    }
    proof {
        assert forall|p: Seq<char>| #[trigger]
            no_target(delete_band_ids@, delete_band_ids@.len() as int, p) implies same_at(
            old(archive).tree(),
            tree_after,
            p,
        ) by {
            if options.dry_run {
            } else {
                assert(no_target(delete_band_ids@, delete_band_ids@.len() as int, p));
            }
        }
    }
    let _ = plan.lock.release(archive);
    proof {
        archive.lemma_parts();
        assert(archive.block_tree() == blocks_after);
        assert(archive.tree().part_of(tree_after));
        crate::transport::lemma_part_of_part(archive.tree(), tree_after, old(archive).tree());
        if crate::archive::bands_distinct(old(archive).tree()) {
            crate::archive::lemma_distinct_part(archive.tree(), old(archive).tree());
        }
        assert forall|p: Seq<char>| archive.tree().has_any(p) implies tree_after.has_any(p) by {
            if archive.tree().has_file(p) {
                assert(tree_after.files.dom().contains(p));
            }
        }
    }
    Ok(stats)
}

/// Deletes one block of the archive. True comes back if it was deleted,
/// which on a steady transport it is if its file was there.
fn delete_one_block<T: Transport>(archive: &mut Archive<T>, hash: &BlockHash) -> (r: bool)
    requires
        old(archive).wf(),
    ensures
        final(archive).wf(),
        final(archive).tree() == old(archive).tree(),
        r ==> final(archive).block_tree() == old(archive).block_tree().without_file(
            crate::blockdir::block_path(hash@),
        ),
        !r ==> final(archive).block_tree() == old(archive).block_tree(),
        T::steady() ==> (r <==> old(archive).block_tree().has_file(
            crate::blockdir::block_path(hash@),
        )),
{
    proof {
        archive.lemma_parts();
    }
    let block_dir = archive.block_dir_mut();
    let r = block_dir.delete_block(hash).is_ok();
    proof {
        archive.lemma_parts();
    }
    r
}

/// Lists the blocks of the archive that nothing refers to, when `referenced`
/// holds the blocks that the bands refer to: every block that is not in
/// `referenced`, but those of subdirectories that could not be listed, which
/// are reported to `monitor`. On a steady transport nothing is reported.
pub fn unreferenced_blocks<T: Transport>(
    archive: &Archive<T>,
    referenced: &BlockSet,
    monitor: &mut CollectMonitor,
) -> (r: Result<Vec<BlockHash>, Error>)
    requires
        archive.wf(),
        referenced.wf(),
    ensures
        final(monitor).counts() == old(monitor).counts(),
        crate::blockdir::then_errors(old(monitor).reported(), final(monitor).reported()),
        T::steady() ==> r is Ok && final(monitor).reported() == old(monitor).reported(),
        match r {
            Ok(hashes) => {
                &&& crate::blockset::hashes_increasing(hashes@)
                &&& crate::blockdir::all_block_files(archive.block_tree(), hashes@)
                &&& forall|i: int|
                    0 <= i < hashes@.len() ==> !referenced@.contains((#[trigger] hashes@[i])@)
                &&& crate::blockdir::all_listing_failures(
                    archive.block_tree(),
                    final(monitor).reported().skip(old(monitor).reported().len() as int),
                )
                &&& forall|dir: Seq<char>, h: Seq<u8>|
                    h.len() == crate::blockhash::BLAKE_HASH_SIZE_BYTES && !referenced@.contains(h)
                        && #[trigger] crate::blockdir::block_file_in(
                        archive.block_tree(),
                        dir,
                        crate::blockhash::hex_text(h),
                    ) ==> crate::blockset::hash_set(hashes@).contains(h)
                        || crate::blockdir::reports_listing(
                        final(monitor).reported().skip(old(monitor).reported().len() as int),
                        dir,
                    )
                &&& final(monitor).reported().len() == old(monitor).reported().len()
                    ==> forall|dir: Seq<char>, h: Seq<u8>|
                    h.len() == crate::blockhash::BLAKE_HASH_SIZE_BYTES && !referenced@.contains(h)
                        && #[trigger] crate::blockdir::block_file_in(
                        archive.block_tree(),
                        dir,
                        crate::blockhash::hex_text(h),
                    ) ==> crate::blockset::hash_set(hashes@).contains(h)
            },
            Err(e) => e is Transport,
        },
{
    proof {
        archive.lemma_parts();
    }
    let present = match archive.block_dir().blocks(monitor) {
        Ok(present) => present,
        Err(e) => {
            return Err(e);
        },
    };
    let ghost listed = present@;
    let ghost tree = archive.block_tree();
    let hashes = unreferenced(present, referenced);
    proof {
        assert forall|i: int| 0 <= i < hashes@.len() implies crate::blockdir::is_block_file(
            tree,
            (#[trigger] hashes@[i]).name(),
        ) && !referenced@.contains(hashes@[i]@) by {
            assert(crate::blockset::hash_set(hashes@).contains(hashes@[i]@));
            let k = choose|k: int| 0 <= k < listed.len() && (#[trigger] listed[k])@ == hashes@[i]@;
            assert(crate::blockdir::is_block_file(tree, listed[k].name()));
        }
        let fresh = monitor.reported().skip(old(monitor).reported().len() as int);
        assert forall|dir: Seq<char>, h: Seq<u8>|
            h.len() == crate::blockhash::BLAKE_HASH_SIZE_BYTES && !referenced@.contains(h)
                && #[trigger] crate::blockdir::block_file_in(
                tree,
                dir,
                crate::blockhash::hex_text(h),
            ) implies crate::blockset::hash_set(hashes@).contains(h)
            || crate::blockdir::reports_listing(fresh, dir) by {
            let name = crate::blockhash::hex_text(h);
            if crate::blockdir::names_hash(listed, name) {
                let k = choose|k: int| 0 <= k < listed.len() && (#[trigger] listed[k]).name() == name;
                crate::blockhash::lemma_hex_text_injective(listed[k]@, h);
                assert(crate::blockset::hash_set(listed).contains(h));
            }
        }
        if monitor.reported().len() == old(monitor).reported().len() {
            assert(fresh.len() == 0);
        }
    }
    Ok(hashes)
}

} // verus!
