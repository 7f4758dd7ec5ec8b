use conserve::apath::Apath;
use conserve::backup::{
    backup_tree, blocks_present, can_reuse, can_reuse_stored, index_hunks, push_entry, seek_basis,
    store_entries, store_file, BackupOptions, SourceEntry, MAX_ENTRIES_PER_HUNK,
};
use conserve::blockdir::{block_relpath, BlockDir};
use conserve::transport::Transport;
use conserve::blockhash::BlockHash;
use conserve::blockset::{BlockLengths, BlockSet};
use conserve::entry::{is_unchanged_from, Entry, UnixTime};
use conserve::errors::Error;
use conserve::excludes::{filter_entries, select_entries, Exclude};
use conserve::filecontent::{read_file_content, store_file_content, MAX_BLOCK_SIZE};
use conserve::index::{hunk_after, total_len, Address, IndexBuilder, IndexEntry};
use conserve::kind::Kind;
use conserve::memory::MemoryTransport;
use conserve::monitor::CollectMonitor;
use conserve::stats::BackupStats;
use conserve::stitch::{BandIndex, IterStitchedIndexHunks, StitchRequest};
use conserve::bandid::BandId;
use conserve::output::IndexDump;
use conserve::stored_tree::{total_file_bytes, StoredTree};
use conserve::archive::Archive;
use conserve::band::{Band, Head};
use conserve::validate::{
    check_addresses, count_missing_blocks, count_order_errors, ValidateStats,
};

const T0: UnixTime = UnixTime { secs: 0, nanos: 0 };

fn dir(path: &str) -> IndexEntry {
    IndexEntry::directory(Apath::from_str(path).unwrap(), T0)
}

fn dirs(paths: &[&str]) -> Vec<IndexEntry> {
    paths.iter().map(|p| dir(p)).collect()
}

fn names(entries: &[IndexEntry]) -> Vec<&str> {
    entries.iter().map(|e| e.apath.as_str()).collect()
}

#[test]
fn builder_cuts_hunks_in_order() {
    let mut ib = IndexBuilder::new();
    assert!(ib.finish_hunk().is_none());
    assert!(ib.can_push(&dir("/")));
    ib.push_entry(dir("/"));
    ib.push_entry(dir("/a"));
    assert!(!ib.can_push(&dir("/a")));
    assert!(!ib.can_push(&dir("/")));
    assert!(ib.can_push(&dir("/a/b")));
    assert_eq!(ib.buffered_len(), 2);
    let hunk = ib.finish_hunk().unwrap();
    assert_eq!(hunk.number, 0);
    assert_eq!(names(&hunk.entries), ["/", "/a"]);
    assert_eq!(ib.buffered_len(), 0);
    assert_eq!(ib.hunks_finished(), 1);
    // The order holds across hunks.
    assert!(!ib.can_push(&dir("/a")));
    assert!(ib.can_push(&dir("/b")));
    ib.push_entry(dir("/b"));
    let (last, count) = ib.finish();
    assert_eq!(last.unwrap().number, 1);
    assert_eq!(count, 2);
    let (last, count) = IndexBuilder::new().finish();
    assert!(last.is_none());
    assert_eq!(count, 0);
}

#[test]
fn a_hunk_is_cut_when_it_is_full() {
    let mut ib = IndexBuilder::new();
    for i in 0..MAX_ENTRIES_PER_HUNK - 1 {
        assert!(push_entry(&mut ib, dir(&format!("/{:05}", i))).is_none());
    }
    let hunk = push_entry(&mut ib, dir("/99999")).unwrap();
    assert_eq!(hunk.entries.len(), MAX_ENTRIES_PER_HUNK);
    assert_eq!(hunk.number, 0);
    assert_eq!(ib.buffered_len(), 0);
    assert!(push_entry(&mut ib, dir("/a")).is_none());
    assert_eq!(ib.buffered_len(), 1);
}

#[test]
fn hunk_after_keeps_what_comes_after() {
    let bound = Apath::from_str("/b").unwrap();
    assert_eq!(names(&hunk_after(dirs(&["/a", "/b", "/b/x", "/c"]), &bound)), ["/b/x", "/c"]);
    assert_eq!(names(&hunk_after(dirs(&["/a", "/b"]), &bound)), Vec::<&str>::new());
    assert_eq!(names(&hunk_after(dirs(&["/c", "/d"]), &bound)), ["/c", "/d"]);
    assert_eq!(names(&hunk_after(dirs(&[]), &bound)), Vec::<&str>::new());
}

#[test]
fn entries_are_selected_by_subtree_and_marks() {
    let all = ["/", "/a", "/a/b", "/ab", "/b"];
    let subtree = Apath::from_str("/a").unwrap();
    let kept = select_entries(dirs(&all), &subtree, &vec![false; 5]);
    assert_eq!(names(&kept), ["/a", "/a/b"]);
    let kept = select_entries(dirs(&all), &subtree, &vec![false, true, false, false, false]);
    assert_eq!(names(&kept), ["/a/b"]);
    let kept = select_entries(dirs(&all), &Apath::root(), &vec![false, false, true, true, false]);
    assert_eq!(names(&kept), ["/", "/a", "/b"]);
}

#[test]
fn excludes_leave_out_what_matches() {
    let all = ["/", "/a", "/a/b.tmp", "/a/c", "/b.tmp", "/cache", "/cache/x"];
    let nothing = Exclude::nothing();
    assert_eq!(names(&filter_entries(dirs(&all), &Apath::root(), &nothing)), all);
    let exclude =
        Exclude::from_patterns(&vec!["*.tmp".to_string(), "/cache".to_string()]).unwrap();
    assert!(exclude.matches(&Apath::from_str("/b.tmp").unwrap()));
    assert!(!exclude.matches(&Apath::from_str("/a").unwrap()));
    assert_eq!(
        names(&filter_entries(dirs(&all), &Apath::root(), &exclude)),
        ["/", "/a", "/a/c", "/cache/x"]
    );
    assert_eq!(
        names(&filter_entries(dirs(&all), &Apath::from_str("/a").unwrap(), &exclude)),
        ["/a", "/a/c"]
    );
    match Exclude::from_patterns(&vec!["a[".to_string()]) {
        Err(Error::InvalidGlob { message }) => assert!(!message.is_empty()),
        _ => panic!("a glob"),
    }
    assert!(Exclude::from_patterns(&vec![]).is_ok());
}

#[test]
fn stitched_entries_are_filtered() {
    let reader = IterStitchedIndexHunks::new(BandId::zero());
    let exclude = Exclude::from_patterns(&vec!["*.o".to_string()]).unwrap();
    let mut entries = reader.iter_entries(Apath::from_str("/src").unwrap(), exclude);
    assert!(matches!(entries.request(), StitchRequest::OpenBand(_)));
    entries.band_opened(true);
    let kept = entries.hunk_read(Some(dirs(&["/", "/doc", "/src", "/src/a.c", "/src/a.o"])));
    assert_eq!(names(&kept), ["/src", "/src/a.c"]);
    // What was read before does not come again from the next hunk.
    let kept = entries.hunk_read(Some(dirs(&["/src/a.c", "/src/b.c", "/src/b.o", "/test"])));
    assert_eq!(names(&kept), ["/src/b.c"]);
    assert!(entries.hunk_read(None).is_empty());
    assert!(matches!(entries.request(), StitchRequest::BandStatus(_)));
    entries.band_finished(true, None);
    assert!(matches!(entries.request(), StitchRequest::Finished));
}

#[test]
fn unchanged_files_are_told_by_kind_time_and_size() {
    let mut blockdir = BlockDir::open(MemoryTransport::new());
    let mut stats = BackupStats::new();
    let mut monitor = CollectMonitor::new();
    let path = || Apath::from_str("/f").unwrap();
    let t1 = UnixTime { secs: 10, nanos: 5 };
    let basis = store_file(&mut blockdir, path(), t1, b"12345", &mut stats, &mut monitor).unwrap();
    let same = store_file(&mut blockdir, path(), t1, b"abcde", &mut stats, &mut monitor).unwrap();
    let later = store_file(
        &mut blockdir,
        path(),
        UnixTime { secs: 10, nanos: 6 },
        b"12345",
        &mut stats,
        &mut monitor,
    )
    .unwrap();
    let longer = store_file(&mut blockdir, path(), t1, b"123456", &mut stats, &mut monitor).unwrap();
    assert!(is_unchanged_from(&same, &basis));
    assert!(same.is_unchanged_from(&basis));
    assert!(!is_unchanged_from(&later, &basis));
    assert!(!is_unchanged_from(&longer, &basis));
    assert!(!is_unchanged_from(&dir("/f"), &basis));
    assert_eq!(basis.kind(), Kind::File);
    assert_eq!(basis.size(), Some(5));
    assert_eq!(basis.mtime(), t1);
    assert_eq!(basis.apath().as_str(), "/f");
    assert_eq!(basis.symlink_target(), &None);

    let use_index = BackupOptions { no_index: false };
    let no_index = BackupOptions { no_index: true };
    assert!(can_reuse(&use_index, &same, &basis));
    assert!(!can_reuse(&use_index, &longer, &basis));
    // Without the index every file is read again.
    assert!(!can_reuse(&no_index, &same, &basis));
}

#[test]
fn file_content_round_trip() {
    let mut blockdir = BlockDir::open(MemoryTransport::new());
    let mut stats = BackupStats::new();
    let mut monitor = CollectMonitor::new();
    let content = b"the content of a small file".to_vec();
    let entry = store_file(
        &mut blockdir,
        Apath::from_str("/small").unwrap(),
        T0,
        &content,
        &mut stats,
        &mut monitor,
    )
    .unwrap();
    assert_eq!(entry.size, Some(content.len() as u64));
    assert_eq!(entry.addrs.len(), 1);
    assert_eq!(entry.addrs[0].start, 0);
    assert_eq!(entry.addrs[0].len, content.len() as u64);
    assert_eq!(entry.addrs[0].hash, BlockHash::hash_bytes(&content));
    assert_eq!(entry.content_hash, Some(BlockHash::hash_bytes(&content)));
    assert_eq!(
        read_file_content(&mut blockdir, &entry.addrs, &mut monitor).unwrap(),
        content
    );
    // From storage too, not only from memory.
    let mut blockdir = BlockDir::open(blockdir.into_transport());
    assert_eq!(
        read_file_content(&mut blockdir, &entry.addrs, &mut monitor).unwrap(),
        content
    );

    // An empty file has no blocks.
    let (addrs, hash) = store_file_content(&mut blockdir, b"", &mut stats, &mut monitor).unwrap();
    assert!(addrs.is_empty());
    assert_eq!(hash, BlockHash::hash_bytes(b""));
    assert_eq!(read_file_content(&mut blockdir, &addrs, &mut monitor).unwrap(), b"");
}

#[test]
fn large_file_is_cut_into_blocks() {
    let mut blockdir = BlockDir::open(MemoryTransport::new());
    let mut stats = BackupStats::new();
    let mut monitor = CollectMonitor::new();
    let mut content = vec![7u8; MAX_BLOCK_SIZE * 2 + 5];
    content[MAX_BLOCK_SIZE] = 8;
    let (addrs, hash) =
        store_file_content(&mut blockdir, &content, &mut stats, &mut monitor).unwrap();
    let lens: Vec<u64> = addrs.iter().map(|a| a.len).collect();
    assert_eq!(lens, [MAX_BLOCK_SIZE as u64, MAX_BLOCK_SIZE as u64, 5]);
    assert!(addrs.iter().all(|a| a.start == 0));
    assert_eq!(lens.iter().sum::<u64>(), content.len() as u64);
    assert_eq!(hash, BlockHash::hash_bytes(&content));
    assert_eq!(stats.written_blocks, 3);
    assert_eq!(stats.uncompressed_bytes, content.len() as u64);
    let read = read_file_content(&mut blockdir, &addrs, &mut monitor).unwrap();
    assert!(read == content);
}

#[test]
fn stored_tree_validates_files() {
    let mut archive = Archive::create(MemoryTransport::new()).unwrap();
    let band = Band::create(&mut archive, b"{}").unwrap();
    band.close(&mut archive, b"{}").unwrap();
    let st = StoredTree::open_last(&archive, &plain_head()).unwrap();
    let mut stats = BackupStats::new();
    let mut monitor = CollectMonitor::new();
    let good = store_file(
        archive.block_dir_mut(),
        Apath::from_str("/good").unwrap(),
        T0,
        b"good",
        &mut stats,
        &mut monitor,
    )
    .unwrap();
    let mut bad = store_file(
        archive.block_dir_mut(),
        Apath::from_str("/zbad").unwrap(),
        T0,
        b"bad",
        &mut stats,
        &mut monitor,
    )
    .unwrap();
    bad.content_hash = Some(BlockHash::hash_bytes(b"something else"));
    assert!(st.validate_one_entry(archive.block_dir_mut(), &good, &mut monitor).is_ok());
    match st.validate_one_entry(archive.block_dir_mut(), &bad, &mut monitor) {
        Err(Error::FileCorrupt { band_id, apath, expected_hex, actual_hex }) => {
            assert_eq!(band_id, BandId::zero());
            assert_eq!(apath.as_str(), "/zbad");
            assert_eq!(expected_hex, BlockHash::hash_bytes(b"something else").to_string());
            assert_eq!(actual_hex, BlockHash::hash_bytes(b"bad").to_string());
        }
        other => panic!("unexpected {:?}", other),
    }
    let entries = vec![dir("/"), good.clone()];
    assert!(st.validate(archive.block_dir_mut(), &entries, &mut monitor).is_ok());
    let entries = vec![dir("/"), good, bad];
    assert!(matches!(
        st.validate(archive.block_dir_mut(), &entries, &mut monitor),
        Err(Error::FileCorrupt { .. })
    ));
    let st = st.with_excludes(Exclude::from_patterns(&vec!["*.x".to_string()]).unwrap());
    assert!(st.excludes().matches(&Apath::from_str("/a.x").unwrap()));
}

#[test]
fn validation_counts_what_is_wrong() {
    assert_eq!(count_order_errors(&dirs(&[])), 0);
    assert_eq!(count_order_errors(&dirs(&["/"])), 0);
    assert_eq!(count_order_errors(&dirs(&["/", "/a", "/a/b", "/b"])), 0);
    assert_eq!(count_order_errors(&dirs(&["/", "/b", "/a", "/a", "/c"])), 2);
    assert!(!ValidateStats::new().has_problems());
    assert!(ValidateStats { order_errors: 1, ..ValidateStats::new() }.has_problems());
    assert!(ValidateStats { io_errors: 1, ..ValidateStats::new() }.has_problems());

    let mut blockdir = BlockDir::open(MemoryTransport::new());
    let mut stats = BackupStats::new();
    let mut monitor = CollectMonitor::new();
    let mut entry = store_file(
        &mut blockdir,
        Apath::from_str("/f").unwrap(),
        T0,
        b"0123456789",
        &mut stats,
        &mut monitor,
    )
    .unwrap();
    let lengths = blockdir.validate(&mut monitor).unwrap();
    assert_eq!(monitor.error_count(), 0);
    assert_eq!(lengths.len(), 1);
    assert_eq!(lengths.get(&entry.addrs[0].hash), Some(10));
    assert_eq!(lengths.get(&BlockHash::hash_bytes(b"other")), None);
    assert_eq!(check_addresses(&vec![dir("/"), entry.clone()], &lengths), (0, 0));
    entry.addrs.push(Address { hash: entry.addrs[0].hash.clone(), start: 5, len: 6 });
    entry.addrs.push(Address { hash: BlockHash::hash_bytes(b"gone"), start: 0, len: 1 });
    assert_eq!(check_addresses(&vec![entry], &lengths), (1, 1));
    assert_eq!(check_addresses(&vec![], &BlockLengths::new()), (0, 0));
}

#[test]
fn block_validation_reports_corrupt_blocks() {
    let mut blockdir = BlockDir::open(MemoryTransport::new());
    let mut stats = BackupStats::new();
    let mut monitor = CollectMonitor::new();
    let good = blockdir.store_or_deduplicate(b"good", &mut stats, &mut monitor).unwrap();
    let bad = blockdir.store_or_deduplicate(b"bad", &mut stats, &mut monitor).unwrap();
    let mut transport = blockdir.into_transport();
    transport.write_file(&block_relpath(&bad), b"\x00").unwrap();
    let mut blockdir = BlockDir::open(transport);
    let lengths = blockdir.validate(&mut monitor).unwrap();
    assert_eq!(lengths.len(), 1);
    assert_eq!(lengths.get(&good), Some(4));
    assert_eq!(lengths.get(&bad), None);
    assert_eq!(monitor.error_count(), 1);
    match &monitor.errors()[0] {
        Error::BlockCorrupt { hash } => assert_eq!(hash, &bad),
        other => panic!("unexpected {:?}", other),
    }
}

#[test]
fn entries_that_an_index_may_hold() {
    let mut blockdir = BlockDir::open(MemoryTransport::new());
    let mut stats = BackupStats::new();
    let mut monitor = CollectMonitor::new();
    let file = store_file(
        &mut blockdir,
        Apath::from_str("/f").unwrap(),
        T0,
        b"0123456789",
        &mut stats,
        &mut monitor,
    )
    .unwrap();
    assert!(file.is_wf());
    assert!(dir("/").is_wf());
    assert!(IndexEntry::symlink(Apath::from_str("/l").unwrap(), "t".to_string(), T0).is_wf());
    assert_eq!(total_len(&file.addrs), Some(10));
    assert_eq!(total_len(&vec![]), Some(0));

    // The size of a file is what its addresses point to.
    let mut wrong = file.clone();
    wrong.size = Some(9);
    assert!(!wrong.is_wf());
    wrong.size = None;
    assert!(!wrong.is_wf());
    let mut wrong = file.clone();
    wrong.addrs.push(Address { hash: BlockHash::hash_bytes(b""), start: 0, len: u64::MAX });
    assert_eq!(total_len(&wrong.addrs), None);
    assert!(!wrong.is_wf());
    // Only files have content.
    let mut wrong = file.clone();
    wrong.kind = Kind::Dir;
    assert!(!wrong.is_wf());
    let mut wrong = dir("/d");
    wrong.size = Some(0);
    assert!(!wrong.is_wf());
    let mut wrong = dir("/d");
    wrong.kind = Kind::Unknown;
    assert!(!wrong.is_wf());
    assert!(!Kind::Unknown.is_storable());
    assert!(Kind::Symlink.is_storable());
}

#[test]
fn basis_is_sought_forward() {
    let basis = dirs(&["/", "/a", "/c", "/c/x", "/e"]);
    let path = |p: &str| Apath::from_str(p).unwrap();
    assert_eq!(seek_basis(&basis, 0, &path("/")), (0, true));
    assert_eq!(seek_basis(&basis, 0, &path("/a")), (1, true));
    assert_eq!(seek_basis(&basis, 1, &path("/b")), (2, false));
    assert_eq!(seek_basis(&basis, 2, &path("/c/x")), (3, true));
    assert_eq!(seek_basis(&basis, 3, &path("/d")), (4, false));
    assert_eq!(seek_basis(&basis, 4, &path("/z")), (5, false));
    assert_eq!(seek_basis(&basis, 5, &path("/zz")), (5, false));
    assert_eq!(seek_basis(&basis, 9, &path("/zz")), (9, false));
    assert_eq!(seek_basis(&vec![], 0, &path("/")), (0, false));
}

#[test]
fn sizes_of_files_are_added_up() {
    let mut blockdir = BlockDir::open(MemoryTransport::new());
    let mut stats = BackupStats::new();
    let mut monitor = CollectMonitor::new();
    let mut entries = vec![dir("/")];
    assert_eq!(total_file_bytes(&entries), 0);
    for (name, content) in [("/a", "12345"), ("/b", ""), ("/c", "123")] {
        entries.push(
            store_file(
                &mut blockdir,
                Apath::from_str(name).unwrap(),
                T0,
                content.as_bytes(),
                &mut stats,
                &mut monitor,
            )
            .unwrap(),
        );
    }
    assert_eq!(total_file_bytes(&entries), 8);
    entries[1].size = Some(u64::MAX - 2);
    assert_eq!(total_file_bytes(&entries), u64::MAX);

    let present = BlockSet::from_hashes(blockdir.blocks(&mut monitor).unwrap());
    assert_eq!(count_missing_blocks(&entries, &present), 0);
    assert_eq!(count_missing_blocks(&entries, &BlockSet::new()), 2);
    assert_eq!(count_missing_blocks(&vec![dir("/")], &BlockSet::new()), 0);
}

#[test]
fn index_dump_gives_all_entries() {
    let band = BandIndex {
        id: BandId::zero(),
        opens: true,
        closed: true,
        hunks: vec![dirs(&["/", "/a"]), dirs(&[]), dirs(&["/b"])],
    };
    assert_eq!(names(&IndexDump::new(&band).entries()), ["/", "/a", "/b"]);
    let empty = BandIndex { id: BandId::zero(), opens: true, closed: false, hunks: vec![] };
    assert!(IndexDump::new(&empty).entries().is_empty());
}

#[test]
fn restore_gives_back_what_was_stored() {
    let mut blockdir = BlockDir::open(MemoryTransport::new());
    let mut stats = BackupStats::new();
    let mut monitor = CollectMonitor::new();
    let mtime = UnixTime { secs: 1_600_000_000, nanos: 123_456_789 };
    let content = b"what goes in comes out".to_vec();
    let mut entry = store_file(
        &mut blockdir,
        Apath::from_str("/dir/file").unwrap(),
        mtime,
        &content,
        &mut stats,
        &mut monitor,
    )
    .unwrap();
    assert_eq!(entry.mtime(), mtime);
    assert_eq!((entry.mtime, entry.mtime_nanos), (1_600_000_000, 123_456_789));
    let mut blockdir = BlockDir::open(blockdir.into_transport());
    assert_eq!(
        conserve::filecontent::restore_file_content(&mut blockdir, &entry, &mut monitor).unwrap(),
        content
    );
    // A file is cut off at the size that its entry gives.
    entry.size = Some(4);
    assert_eq!(
        conserve::filecontent::restore_file_content(&mut blockdir, &entry, &mut monitor).unwrap(),
        b"what"
    );
    entry.size = Some(1000);
    assert_eq!(
        conserve::filecontent::restore_file_content(&mut blockdir, &entry, &mut monitor).unwrap(),
        content
    );
}

#[test]
fn check_of_a_version_ends_at_the_first_file_that_fails() {
    let mut archive = Archive::create(MemoryTransport::new()).unwrap();
    let band = Band::create(&mut archive, b"{}").unwrap();
    let st = StoredTree::open_incomplete_version(&archive, band.id(), &plain_head()).unwrap();
    let mut stats = BackupStats::new();
    let mut monitor = CollectMonitor::new();
    let good = store_file(
        archive.block_dir_mut(),
        Apath::from_str("/a").unwrap(),
        T0,
        b"kept",
        &mut stats,
        &mut monitor,
    )
    .unwrap();
    let lost = store_file(
        archive.block_dir_mut(),
        Apath::from_str("/b").unwrap(),
        T0,
        b"lost",
        &mut stats,
        &mut monitor,
    )
    .unwrap();
    let mut wrong = good.clone();
    wrong.content_hash = Some(BlockHash::hash_bytes(b"other"));
    archive.block_dir_mut().delete_block(&lost.addrs[0].hash).unwrap();
    assert!(st.validate(archive.block_dir_mut(), &Vec::new(), &mut monitor).is_ok());
    assert!(st.validate(archive.block_dir_mut(), &vec![dir("/"), good.clone()], &mut monitor).is_ok());
    let entries = vec![good.clone(), lost.clone(), wrong.clone()];
    assert!(matches!(
        st.validate(archive.block_dir_mut(), &entries, &mut monitor),
        Err(Error::BlockMissing { .. })
    ));
    let entries = vec![good, wrong, lost];
    assert!(matches!(
        st.validate(archive.block_dir_mut(), &entries, &mut monitor),
        Err(Error::FileCorrupt { .. })
    ));
}

#[test]
fn globs_decide_what_is_left_out() {
    let patterns = vec!["/tmp/**".to_string(), "*.o".to_string()];
    let exclude = Exclude::from_patterns(&patterns).unwrap();
    let again = Exclude::from_patterns(&patterns).unwrap();
    for path in ["/tmp/x", "/tmp/deep/y", "/src/main.o", "/src/main.c", "/tmpfile", "/"] {
        let apath = Apath::from_str(path).unwrap();
        assert_eq!(exclude.matches(&apath), again.matches(&apath));
    }
    assert!(exclude.matches(&Apath::from_str("/tmp/x").unwrap()));
    assert!(exclude.matches(&Apath::from_str("/src/main.o").unwrap()));
    assert!(!exclude.matches(&Apath::from_str("/src/main.c").unwrap()));
    assert!(!exclude.matches(&Apath::from_str("/tmpfile").unwrap()));
    assert!(!Exclude::nothing().matches(&Apath::from_str("/tmp/x").unwrap()));
}

#[test]
fn two_files_with_the_same_bytes_share_one_block() {
    let mut blockdir = BlockDir::open(MemoryTransport::new());
    let mut monitor = CollectMonitor::new();
    let mut first = BackupStats::new();
    let a = store_file(
        &mut blockdir,
        Apath::from_str("/a").unwrap(),
        T0,
        b"the same bytes",
        &mut first,
        &mut monitor,
    )
    .unwrap();
    assert_eq!(first.written_blocks, 1);
    assert_eq!(first.deduplicated_blocks, 0);
    assert_eq!(first.uncompressed_bytes, 14);
    let mut second = BackupStats::new();
    let b = store_file(
        &mut blockdir,
        Apath::from_str("/b").unwrap(),
        T0,
        b"the same bytes",
        &mut second,
        &mut monitor,
    )
    .unwrap();
    assert_eq!(second.deduplicated_blocks, 1);
    assert_eq!(second.deduplicated_bytes, 14);
    assert_eq!(second.written_blocks, 0);
    assert_eq!(second.compressed_bytes, 0);
    let hash = BlockHash::hash_bytes(b"the same bytes");
    assert_eq!(a.addrs, [Address { hash: hash.clone(), start: 0, len: 14 }]);
    assert_eq!(b.addrs, a.addrs);
    assert_eq!(blockdir.blocks(&mut monitor).unwrap(), [hash]);
    assert_eq!(blockdir.into_transport().file_count(), 1);
}

#[test]
fn pieces_of_one_file_that_are_the_same_are_written_once() {
    let mut blockdir = BlockDir::open(MemoryTransport::new());
    let mut monitor = CollectMonitor::new();
    let mut stats = BackupStats::new();
    let content = vec![7u8; 2 * MAX_BLOCK_SIZE + 5];
    let (addrs, _) = store_file_content(&mut blockdir, &content, &mut stats, &mut monitor).unwrap();
    assert_eq!(addrs.len(), 3);
    assert_eq!(addrs[0].hash, addrs[1].hash);
    assert_eq!(stats.written_blocks, 2);
    assert_eq!(stats.deduplicated_blocks, 1);
    assert_eq!(stats.deduplicated_bytes, MAX_BLOCK_SIZE as u64);
    assert_eq!(stats.uncompressed_bytes, MAX_BLOCK_SIZE as u64 + 5);
    assert_eq!(blockdir.into_transport().file_count(), 2);
}

#[test]
fn unchanged_file_whose_block_was_emptied_is_stored_again() {
    let mut blockdir = BlockDir::open(MemoryTransport::new());
    let mut stats = BackupStats::new();
    let mut monitor = CollectMonitor::new();
    let path = || Apath::from_str("/f").unwrap();
    let basis = store_file(&mut blockdir, path(), T0, b"content", &mut stats, &mut monitor).unwrap();
    let options = BackupOptions { no_index: false };
    assert!(can_reuse_stored(&options, &basis, &basis, &mut blockdir, &mut monitor));
    assert!(blocks_present(&mut blockdir, &basis.addrs, &mut monitor));
    assert!(blocks_present(&mut blockdir, &Vec::new(), &mut monitor));
    assert!(!can_reuse_stored(
        &BackupOptions { no_index: true },
        &basis,
        &basis,
        &mut blockdir,
        &mut monitor
    ));
    // The block is emptied, as by a write that was interrupted, and the
    // archive is opened again.
    let hash = basis.addrs[0].hash.clone();
    let mut transport = blockdir.into_transport();
    transport.write_file(&block_relpath(&hash), b"").unwrap();
    let mut blockdir = BlockDir::open(transport);
    assert!(can_reuse(&options, &basis, &basis));
    assert!(!blocks_present(&mut blockdir, &basis.addrs, &mut monitor));
    assert!(!can_reuse_stored(&options, &basis, &basis, &mut blockdir, &mut monitor));
    let mut stats = BackupStats::new();
    let again = store_file(&mut blockdir, path(), T0, b"content", &mut stats, &mut monitor).unwrap();
    assert_eq!(again.addrs, basis.addrs);
    assert_eq!(stats.written_blocks, 1);
    assert_eq!(stats.deduplicated_blocks, 0);
    assert!(blockdir.contains(&hash, &mut monitor).unwrap());
    assert_eq!(read_file_content(&mut blockdir, &again.addrs, &mut monitor).unwrap(), b"content");
    assert!(can_reuse_stored(&options, &basis, &basis, &mut blockdir, &mut monitor));
}

#[test]
fn patterns_that_are_no_globs_are_refused() {
    assert!(Exclude::from_patterns(&Vec::new()).is_ok());
    assert!(Exclude::from_patterns(&vec!["*.o".to_string(), "/a/**/b".to_string()]).is_ok());
    for bad in ["[", "{a,b", "[z-a]"] {
        match Exclude::from_patterns(&vec!["*.o".to_string(), bad.to_string()]) {
            Err(Error::InvalidGlob { message }) => assert!(!message.is_empty()),
            other => panic!("unexpected {:?}", other.map(|_| ())),
        }
    }
}

#[test]
fn entries_are_left_out_as_the_globs_say() {
    let exclude = Exclude::from_patterns(&vec!["/b*".to_string()]).unwrap();
    let kept = filter_entries(
        dirs(&["/", "/a", "/a/b", "/b", "/b/c", "/bb", "/c"]),
        &Apath::root(),
        &exclude,
    );
    assert_eq!(names(&kept), ["/", "/a", "/a/b", "/c"]);
    let kept = filter_entries(
        dirs(&["/", "/a", "/a/b", "/b", "/b/c", "/bb", "/c"]),
        &Apath::from_str("/a").unwrap(),
        &Exclude::from_patterns(&vec!["*/b".to_string()]).unwrap(),
    );
    assert_eq!(names(&kept), ["/a"]);
    let all = filter_entries(dirs(&["/", "/b"]), &Apath::root(), &Exclude::nothing());
    assert_eq!(names(&all), ["/", "/b"]);
}

#[test]
fn stored_file_is_sound_and_restores() {
    let mut blockdir = BlockDir::open(MemoryTransport::new());
    let mut stats = BackupStats::new();
    let mut monitor = CollectMonitor::new();
    let content: Vec<u8> = (0..100_000u32).map(|i| (i % 251) as u8).collect();
    let entry = store_file(
        &mut blockdir,
        Apath::from_str("/data").unwrap(),
        UnixTime { secs: 5, nanos: 6 },
        &content,
        &mut stats,
        &mut monitor,
    )
    .unwrap();
    assert_eq!(entry.size, Some(100_000));
    assert_eq!(total_len(&entry.addrs), Some(100_000));
    assert_eq!(entry.content_hash, Some(BlockHash::hash_bytes(&content)));
    assert_eq!((entry.mtime, entry.mtime_nanos), (5, 6));
    let mut fresh = BlockDir::open(blockdir.into_transport());
    assert_eq!(read_file_content(&mut fresh, &entry.addrs, &mut monitor).unwrap(), content);
    assert_eq!(
        conserve::filecontent::restore_file_content(&mut fresh, &entry, &mut monitor).unwrap(),
        content
    );
}

fn plain_head() -> Head {
    Head { start_time: 0, band_format_version: None, format_flags: Vec::new() }
}

fn source_file(path: &str, secs: i64, content: &[u8]) -> SourceEntry {
    SourceEntry::File {
        apath: Apath::from_str(path).unwrap(),
        mtime: UnixTime { secs, nanos: 7 },
        content: content.to_vec(),
    }
}

fn source_dir(path: &str) -> SourceEntry {
    SourceEntry::Dir { apath: Apath::from_str(path).unwrap(), mtime: UnixTime { secs: 3, nanos: 4 } }
}

#[test]
fn whole_index_is_cut_into_numbered_hunks() {
    assert_eq!(index_hunks(Vec::new()).unwrap().len(), 0);
    let paths: Vec<String> = (0..2500).map(|i| format!("/{:05}", i)).collect();
    let entries: Vec<IndexEntry> = paths.iter().map(|p| dir(p)).collect();
    let hunks = index_hunks(entries).unwrap();
    assert_eq!(hunks.len(), 3);
    assert_eq!(hunks.iter().map(|h| h.number).collect::<Vec<u32>>(), [0, 1, 2]);
    assert_eq!(
        hunks.iter().map(|h| h.entries.len()).collect::<Vec<usize>>(),
        [MAX_ENTRIES_PER_HUNK, MAX_ENTRIES_PER_HUNK, 500]
    );
    let all: Vec<&str> = hunks.iter().flat_map(|h| h.entries.iter()).map(|e| e.apath.as_str()).collect();
    assert_eq!(all, paths);
    assert_eq!(index_hunks(dirs(&["/a", "/b"])).unwrap().len(), 1);
    // Entries out of order, or one path twice, make no index.
    assert!(index_hunks(dirs(&["/b", "/a"])).is_none());
    assert!(index_hunks(dirs(&["/a", "/a"])).is_none());
    assert!(index_hunks(dirs(&["/a", "/a/b", "/a.c", "/a/b"])).is_none());
}

#[test]
fn backup_of_a_tree_in_memory() {
    let mut blockdir = BlockDir::open(MemoryTransport::new());
    let mut monitor = CollectMonitor::new();
    let mut stats = BackupStats::new();
    let options = BackupOptions { no_index: false };
    let sources = vec![
        source_dir("/"),
        source_file("/hello", 10, b"contents"),
        SourceEntry::Symlink {
            apath: Apath::from_str("/link").unwrap(),
            mtime: UnixTime { secs: 1, nanos: 2 },
            target: "target".to_owned(),
        },
        source_dir("/subdir"),
        source_file("/subdir/subfile", 11, b"contents"),
    ];
    let hunks =
        backup_tree(&mut blockdir, &sources, &options, &Vec::new(), &mut stats, &mut monitor).unwrap();
    assert_eq!(hunks.len(), 1);
    assert_eq!(hunks[0].number, 0);
    let first = &hunks[0].entries;
    assert_eq!(names(first), ["/", "/hello", "/link", "/subdir", "/subdir/subfile"]);
    assert_eq!(first[0].kind, Kind::Dir);
    assert_eq!((first[0].mtime, first[0].mtime_nanos), (3, 4));
    assert_eq!((first[1].mtime, first[1].mtime_nanos), (10, 7));
    assert_eq!(first[1].size, Some(8));
    assert_eq!(first[1].content_hash, Some(BlockHash::hash_bytes(b"contents")));
    assert_eq!(first[2].target, Some("target".to_owned()));
    assert_eq!((first[2].mtime, first[2].mtime_nanos), (1, 2));
    assert_eq!(first[4].addrs, first[1].addrs);
    assert_eq!((stats.written_blocks, stats.deduplicated_blocks), (1, 1));
    // Every block that the index refers to is there.
    let mut referenced = BlockSet::new();
    conserve::gc::add_referenced(&mut referenced, first);
    let present = BlockSet::from_hashes(blockdir.blocks(&mut monitor).unwrap());
    assert_eq!(referenced.len(), 1);
    assert_eq!(count_missing_blocks(first, &present), 0);

    // The next backup takes unchanged files from the first, stores what
    // changed, and stores again what lost its block.
    let lost = first[1].addrs[0].hash.clone();
    blockdir.delete_block(&lost).unwrap();
    let sources = vec![
        source_dir("/"),
        source_file("/hello", 10, b"contents"),
        source_file("/hello2", 12, b"more"),
        source_dir("/subdir"),
        source_file("/subdir/subfile", 99, b"contents"),
    ];
    let mut stats = BackupStats::new();
    let second =
        store_entries(&mut blockdir, &sources, &options, first, &mut stats, &mut monitor).unwrap();
    assert_eq!(names(&second), ["/", "/hello", "/hello2", "/subdir", "/subdir/subfile"]);
    assert_eq!((stats.written_blocks, stats.deduplicated_blocks), (2, 1));
    assert_eq!((second[4].mtime, second[4].mtime_nanos), (99, 7));
    assert!(blockdir.contains(&lost, &mut monitor).unwrap());
    let present = BlockSet::from_hashes(blockdir.blocks(&mut monitor).unwrap());
    assert_eq!(count_missing_blocks(&second, &present), 0);

    // With the blocks there, an unchanged file is not even looked at again.
    let mut stats = BackupStats::new();
    let third =
        store_entries(&mut blockdir, &sources, &options, &second, &mut stats, &mut monitor).unwrap();
    assert_eq!(third, second);
    assert_eq!(stats, BackupStats::new());
    // Unless the earlier index is not to be used.
    let mut stats = BackupStats::new();
    let no_index = BackupOptions { no_index: true };
    let fourth =
        store_entries(&mut blockdir, &sources, &no_index, &second, &mut stats, &mut monitor).unwrap();
    assert_eq!(fourth, second);
    assert_eq!((stats.written_blocks, stats.deduplicated_blocks), (0, 3));
}
