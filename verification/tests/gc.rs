use conserve::apath::Apath;
use conserve::archive::Archive;
use conserve::backup::store_file;
use conserve::band::{write_hunk, Band};
use conserve::bandid::BandId;
use conserve::blockhash::BlockHash;
use conserve::blockset::BlockSet;
use conserve::entry::UnixTime;
use conserve::errors::Error;
use conserve::blockdir::BlockDir;
use conserve::gc::{
    add_referenced, begin_delete, check_no_gc_lock, finish_delete, sum_stored, unreferenced,
    DeleteOptions, DeleteStats, GarbageCollectionLock,
};
use conserve::index::IndexEntry;
use conserve::memory::MemoryTransport;
use conserve::monitor::CollectMonitor;
use conserve::stats::BackupStats;

/// Makes a backup of one file in a new band, and closes the band. Gives back
/// the entries of the band.
fn backup_one_file(
    archive: &mut Archive<MemoryTransport>,
    name: &str,
    content: &[u8],
) -> (BandId, Vec<IndexEntry>, BackupStats) {
    check_no_gc_lock(archive).unwrap();
    let mut monitor = CollectMonitor::new();
    let mut stats = BackupStats::new();
    let band = Band::create(archive, b"{\"start_time\":0}").unwrap();
    let entry = store_file(
        archive.block_dir_mut(),
        Apath::from_str(name).unwrap(),
        UnixTime { secs: 0, nanos: 0 },
        content,
        &mut stats,
        &mut monitor,
    )
    .unwrap();
    write_hunk(archive, band.id(), 0, name.as_bytes(), &mut monitor).unwrap();
    band.close(archive, b"{\"end_time\":1}").unwrap();
    (band.id().clone(), vec![entry], stats)
}

/// Deletes bands as a caller does who holds the entries of the bands in
/// memory.
fn delete_bands(
    archive: &mut Archive<MemoryTransport>,
    delete_band_ids: &[BandId],
    options: &DeleteOptions,
    indexes: &[(BandId, Vec<IndexEntry>)],
    monitor: &mut CollectMonitor,
) -> Result<DeleteStats, Error> {
    let plan = begin_delete(archive, delete_band_ids, options)?;
    let mut referenced = BlockSet::new();
    for keep in plan.keep() {
        for (band_id, entries) in indexes {
            if band_id == keep {
                add_referenced(&mut referenced, entries);
            }
        }
    }
    finish_delete(archive, plan, delete_band_ids, &referenced, options, monitor)
}

#[test]
fn unreferenced_blocks() {
    let mut archive = Archive::create(MemoryTransport::new()).unwrap();
    let content_hash: BlockHash = BlockHash::from_str(
        "9063990e5c5b2184877f92adace7c801a549b00c39cd7549877f06d5dd0d3a6ca6eee42d5\
        896bdac64831c8114c55cee664078bd105dc691270c92644ccb2ce7",
    )
    .unwrap();

    let _copy_stats = backup_one_file(&mut archive, "/hello", b"contents");

    // Delete the band and index
    archive.remove_dir_all("b0000").unwrap();
    let mut monitor = CollectMonitor::new();

    let unreferenced: Vec<BlockHash> =
        conserve::gc::unreferenced_blocks(&archive, &BlockSet::new(), &mut monitor).unwrap();
    assert_eq!(unreferenced, [content_hash]);

    // Delete dry run.
    let delete_stats = delete_bands(
        &mut archive,
        &[],
        &DeleteOptions {
            dry_run: true,
            break_lock: false,
        },
        &[],
        &mut monitor,
    )
    .unwrap();
    assert_eq!(
        delete_stats,
        DeleteStats {
            unreferenced_block_count: 1,
            unreferenced_block_bytes: 10,
            deletion_errors: 0,
            deleted_block_count: 0,
            deleted_band_count: 0,
        }
    );

    // Delete unreferenced blocks.
    let options = DeleteOptions {
        dry_run: false,
        break_lock: false,
    };
    let delete_stats = delete_bands(&mut archive, &[], &options, &[], &mut monitor).unwrap();
    assert_eq!(
        delete_stats,
        DeleteStats {
            unreferenced_block_count: 1,
            unreferenced_block_bytes: 10,
            deletion_errors: 0,
            deleted_block_count: 1,
            deleted_band_count: 0,
        }
    );

    // Try again to delete: should find no garbage.
    let delete_stats = delete_bands(&mut archive, &[], &options, &[], &mut monitor).unwrap();
    assert_eq!(
        delete_stats,
        DeleteStats {
            unreferenced_block_count: 0,
            unreferenced_block_bytes: 0,
            deletion_errors: 0,
            deleted_block_count: 0,
            deleted_band_count: 0,
        }
    );
}

#[test]
fn backup_prevented_by_gc_lock() {
    let mut archive = Archive::create(MemoryTransport::new()).unwrap();

    let lock1 = GarbageCollectionLock::new(&mut archive).unwrap();

    // Backup should fail while gc lock is held.
    let mut monitor = CollectMonitor::new();
    let backup_result = check_no_gc_lock(&archive);
    assert_eq!(
        backup_result.unwrap_err().to_string(),
        "Archive is locked for garbage collection"
    );

    // Leak the lock, then gc breaking the lock.
    std::mem::forget(lock1);
    delete_bands(
        &mut archive,
        &[],
        &DeleteOptions {
            break_lock: true,
            ..Default::default()
        },
        &[],
        &mut monitor,
    )
    .unwrap();

    // Backup should now succeed.
    assert!(check_no_gc_lock(&archive).is_ok());
    let (band_id, _, _) = backup_one_file(&mut archive, "/hello", b"contents");
    assert_eq!(band_id, BandId::zero());
}

#[test]
fn blocks_that_a_backup_refers_to_are_present() {
    let mut archive = Archive::create(MemoryTransport::new()).unwrap();
    let mut all = Vec::new();
    for (name, content) in [("/a", "one"), ("/b", "two"), ("/c", "one"), ("/d", "")] {
        let (_, entries, _) = backup_one_file(&mut archive, name, content.as_bytes());
        all.extend(entries);
    }
    let mut referenced = BlockSet::new();
    add_referenced(&mut referenced, &all);
    assert_eq!(referenced.len(), 2);
    let mut monitor = CollectMonitor::new();
    let present = BlockSet::from_hashes(archive.block_dir().blocks(&mut monitor).unwrap());
    for i in 0..referenced.len() {
        assert!(present.contains(referenced.get(i)));
        assert!(archive
            .block_dir_mut()
            .contains(&referenced.get(i).clone(), &mut monitor)
            .unwrap());
    }
    assert!(conserve::gc::unreferenced_blocks(&archive, &referenced, &mut monitor)
        .unwrap()
        .is_empty());
}

#[test]
fn gc_lock_excludes_another_gc() {
    let mut archive = Archive::create(MemoryTransport::new()).unwrap();
    let lock = GarbageCollectionLock::new(&mut archive).unwrap();
    assert!(archive.is_file("GC_LOCK").unwrap());
    assert!(matches!(
        GarbageCollectionLock::new(&mut archive),
        Err(Error::GarbageCollectionLockHeld)
    ));
    assert!(matches!(
        begin_delete(&mut archive, &[], &DeleteOptions::default()),
        Err(Error::GarbageCollectionLockHeld)
    ));
    lock.release(&mut archive).unwrap();
    assert!(!archive.is_file("GC_LOCK").unwrap());
    let lock = GarbageCollectionLock::new(&mut archive).unwrap();
    assert!(lock.check(&archive).is_ok());
    // A band that appears while the lock is held is concurrent activity.
    archive.create_dir("b0007").unwrap();
    assert!(matches!(
        lock.check(&archive),
        Err(Error::DeleteWithConcurrentActivity)
    ));
}

#[test]
fn gc_keeps_what_the_remaining_bands_refer_to() {
    let mut archive = Archive::create(MemoryTransport::new()).unwrap();
    let (b0, entries0, _) = backup_one_file(&mut archive, "/a", b"first content");
    let (b1, entries1, stats1) = backup_one_file(&mut archive, "/a", b"second content");
    assert_eq!(stats1.written_blocks, 1);
    let (b2, entries2, stats2) = backup_one_file(&mut archive, "/b", b"first content");
    // The same bytes under another name are not stored again.
    assert_eq!(stats2.written_blocks, 0);
    assert_eq!(stats2.deduplicated_blocks, 1);
    assert_eq!(archive.block_dir().transport().file_count(), 2);
    let indexes = vec![
        (b0.clone(), entries0),
        (b1.clone(), entries1.clone()),
        (b2.clone(), entries2.clone()),
    ];
    let mut monitor = CollectMonitor::new();
    let options = DeleteOptions::default();

    // Without b0 the first content is still referred to by b2.
    let stats = delete_bands(&mut archive, &[b0.clone()], &options, &indexes, &mut monitor).unwrap();
    assert_eq!(stats.deleted_band_count, 1);
    assert_eq!(stats.unreferenced_block_count, 0);
    assert_eq!(archive.list_band_ids().unwrap(), vec![b1.clone(), b2.clone()]);
    assert_eq!(archive.block_dir().transport().file_count(), 2);

    // Without b1 the second content is garbage.
    let stats = delete_bands(&mut archive, &[b1.clone()], &options, &indexes, &mut monitor).unwrap();
    assert_eq!(stats.deleted_band_count, 1);
    assert_eq!(stats.unreferenced_block_count, 1);
    assert_eq!(stats.deleted_block_count, 1);
    assert_eq!(stats.deletion_errors, 0);
    assert_eq!(archive.list_band_ids().unwrap(), vec![b2]);
    let first = entries2[0].addrs[0].hash.clone();
    let second = entries1[0].addrs[0].hash.clone();
    assert!(archive.block_dir_mut().contains(&first, &mut monitor).unwrap());
    assert!(!archive.block_dir_mut().contains(&second, &mut monitor).unwrap());
    assert!(!archive.is_file("GC_LOCK").unwrap());
}

#[test]
fn gc_refuses_while_the_last_band_is_incomplete() {
    let mut archive = Archive::create(MemoryTransport::new()).unwrap();
    let (b0, entries0, _) = backup_one_file(&mut archive, "/a", b"aaa");
    let open = Band::create(&mut archive, b"{}").unwrap();
    let options = DeleteOptions::default();
    let indexes = vec![(b0.clone(), entries0)];
    let mut monitor = CollectMonitor::new();
    match delete_bands(&mut archive, &[b0.clone()], &options, &indexes, &mut monitor) {
        Err(Error::DeleteWithIncompleteBackup { band_id }) => assert_eq!(&band_id, open.id()),
        other => panic!("unexpected {:?}", other),
    }
    // The lock is not left behind.
    assert!(!archive.is_file("GC_LOCK").unwrap());
    // To delete the incomplete band itself is fine.
    let stats = delete_bands(
        &mut archive,
        &[open.id().clone()],
        &options,
        &indexes,
        &mut monitor,
    )
    .unwrap();
    assert_eq!(stats.deleted_band_count, 1);
    assert_eq!(archive.list_band_ids().unwrap(), vec![b0]);
}

#[test]
fn unreferenced_is_present_without_referenced() {
    let a = BlockHash::hash_bytes(b"a");
    let b = BlockHash::hash_bytes(b"b");
    let c = BlockHash::hash_bytes(b"c");
    let mut referenced = BlockSet::new();
    assert!(referenced.insert(b.clone()));
    assert!(!referenced.insert(b.clone()));
    assert_eq!(referenced.len(), 1);
    let present = vec![c.clone(), a.clone(), b.clone(), a.clone()];
    let mut expected = vec![a.clone(), c.clone()];
    expected.sort();
    assert_eq!(unreferenced(present, &referenced), expected);
    assert!(referenced.contains(&b));
    assert!(!referenced.contains(&a));
    assert!(referenced.remove(&b));
    assert!(!referenced.remove(&b));
    assert_eq!(referenced.len(), 0);
}

#[test]
fn delete_leaves_the_other_bands_and_gives_up_the_lock() {
    let mut archive = Archive::create(MemoryTransport::new()).unwrap();
    let (b0, e0, _) = backup_one_file(&mut archive, "/a", b"first");
    let (b1, e1, _) = backup_one_file(&mut archive, "/b", b"second");
    let (b2, e2, _) = backup_one_file(&mut archive, "/c", b"third");
    let head0 = archive.read_file("b0000/BANDHEAD").unwrap();
    let hunk2 = archive.read_file("b0002/i/0000/000000000").unwrap();
    let indexes = [(b0.clone(), e0), (b1.clone(), e1.clone()), (b2.clone(), e2)];
    let mut monitor = CollectMonitor::new();
    let stats = delete_bands(
        &mut archive,
        &[b1.clone()],
        &DeleteOptions::default(),
        &indexes,
        &mut monitor,
    )
    .unwrap();
    assert_eq!(stats.deleted_band_count, 1);
    assert_eq!(stats.deleted_block_count, 1);
    assert_eq!(stats.unreferenced_block_count, 1);
    assert_eq!(stats.deletion_errors, 0);
    let stored = BlockDir::open(MemoryTransport::new())
        .store_or_deduplicate(b"second", &mut BackupStats::new(), &mut monitor)
        .map(|_| ())
        .is_ok();
    assert!(stored);
    assert_eq!(monitor.error_count(), 0);
    assert_eq!(archive.list_band_ids().unwrap(), [b0, b2]);
    assert_eq!(archive.read_file("b0000/BANDHEAD").unwrap(), head0);
    assert!(archive.is_file("b0000/BANDTAIL").unwrap());
    assert_eq!(archive.read_file("b0002/i/0000/000000000").unwrap(), hunk2);
    assert!(!archive.is_file("b0001/BANDHEAD").unwrap());
    assert!(archive.is_file("CONSERVE").unwrap());
    assert!(!archive.is_file("GC_LOCK").unwrap());
    assert!(check_no_gc_lock(&archive).is_ok());
    assert!(!archive.block_dir_mut().contains(&e1[0].addrs[0].hash, &mut monitor).unwrap());
}

#[test]
fn bytes_of_what_nothing_refers_to_are_added_up() {
    let mut archive = Archive::create(MemoryTransport::new()).unwrap();
    let mut stats = BackupStats::new();
    let mut monitor = CollectMonitor::new();
    let mut hashes = Vec::new();
    for content in [&b"one"[..], &b"twotwo"[..], &b"three three three"[..]] {
        hashes.push(
            archive.block_dir_mut().store_or_deduplicate(content, &mut stats, &mut monitor).unwrap(),
        );
    }
    assert_eq!(sum_stored(&archive, &hashes), stats.compressed_bytes);
    assert_eq!(sum_stored(&archive, &Vec::new()), 0);
    let deleted = delete_bands(
        &mut archive,
        &[],
        &DeleteOptions { dry_run: true, break_lock: false },
        &[],
        &mut monitor,
    )
    .unwrap();
    assert_eq!(deleted.unreferenced_block_count, 3);
    assert_eq!(deleted.unreferenced_block_bytes, stats.compressed_bytes);
    assert!(!archive.is_file("GC_LOCK").unwrap());
}

#[test]
fn held_lock_is_the_first_thing_in_the_way_of_a_delete() {
    let mut archive = Archive::create(MemoryTransport::new()).unwrap();
    // The last band is incomplete, and the archive is locked as well.
    Band::create(&mut archive, b"{}").unwrap();
    let lock = GarbageCollectionLock::new(&mut archive).unwrap();
    assert!(matches!(
        begin_delete(&mut archive, &[], &DeleteOptions::default()),
        Err(Error::GarbageCollectionLockHeld)
    ));
    assert!(archive.is_file("GC_LOCK").unwrap());
    // With the lock broken the incomplete band is what is in the way, and
    // no lock is left behind.
    match begin_delete(&mut archive, &[], &DeleteOptions { dry_run: false, break_lock: true }) {
        Err(Error::DeleteWithIncompleteBackup { band_id }) => assert_eq!(band_id, BandId::zero()),
        other => panic!("unexpected {:?}", other.map(|_| ())),
    }
    assert!(!archive.is_file("GC_LOCK").unwrap());
    assert_eq!(lock.band_ids(), &[BandId::zero()]);
    // The band may be deleted itself.
    let plan = begin_delete(&mut archive, &[BandId::zero()], &DeleteOptions::default()).unwrap();
    assert!(plan.keep().is_empty());
}

#[test]
fn lock_file_is_empty_and_a_failed_delete_leaves_it() {
    let mut archive = Archive::create(MemoryTransport::new()).unwrap();
    backup_one_file(&mut archive, "/a", b"first");
    let lock = GarbageCollectionLock::new(&mut archive).unwrap();
    assert_eq!(archive.read_file("GC_LOCK").unwrap(), b"");
    let head = archive.read_file("b0000/BANDHEAD").unwrap();
    let mut monitor = CollectMonitor::new();
    // Another deletion finds the lock and leaves everything as it is.
    assert!(matches!(
        delete_bands(&mut archive, &[BandId::zero()], &DeleteOptions::default(), &[], &mut monitor),
        Err(Error::GarbageCollectionLockHeld)
    ));
    assert_eq!(archive.read_file("GC_LOCK").unwrap(), b"");
    assert_eq!(archive.read_file("b0000/BANDHEAD").unwrap(), head);
    assert_eq!(archive.list_band_ids().unwrap(), [BandId::zero()]);
    assert_eq!(lock.band_ids(), &[BandId::zero()]);
    // With the lock broken the deletion goes through, and the lock is gone.
    let stats = delete_bands(
        &mut archive,
        &[],
        &DeleteOptions { dry_run: false, break_lock: true },
        &[],
        &mut monitor,
    )
    .unwrap();
    assert_eq!(stats.unreferenced_block_count, 1);
    assert_eq!(stats.deleted_block_count, 1);
    assert_eq!(stats.deletion_errors, 0);
    assert!(!archive.is_file("GC_LOCK").unwrap());
    assert_eq!(archive.read_file("b0000/BANDHEAD").unwrap(), head);
}
