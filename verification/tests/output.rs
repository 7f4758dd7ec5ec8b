use conserve::band::Info;
use conserve::bandid::BandId;
use conserve::blockindex::{BlockIndex, CachedBlockIndex, FsBlockIndex};
use conserve::blockdir::BlockDir;
use conserve::blockhash::BlockHash;
use conserve::debug::DebugTransport;
use conserve::errors::Error;
use conserve::kind::Kind;
use conserve::memory::MemoryTransport;
use conserve::misc::{bytes_to_human_mb, remove_item, zero_u32, zero_u64};
use conserve::monitor::{add_count, CollectMonitor, Counter};
use conserve::output::{
    duration_to_hms, ShortVersionList, ShowArchive, VerboseVersionList, VersionInfo,
};
use conserve::stats::BackupStats;
use conserve::transport::{DirEntry, ErrorKind, Transport, TransportError};

fn versions() -> Vec<VersionInfo> {
    vec![
        VersionInfo {
            band_id: BandId::zero(),
            is_closed: true,
            start_time: "2023-01-02 03:04:05".to_string(),
            duration_secs: Some(62),
            tree_bytes: Some(12_345_678_901),
        },
        VersionInfo {
            band_id: BandId::new(&[1]),
            is_closed: false,
            start_time: "2023-01-03 03:04:05".to_string(),
            duration_secs: None,
            tree_bytes: None,
        },
    ]
}

#[test]
fn short_version_list() {
    assert_eq!(ShortVersionList::default().show_archive(&versions()), ["b0000", "b0001"]);
    assert!(ShortVersionList::default().show_archive(&vec![]).is_empty());
}

#[test]
fn verbose_version_list() {
    let lines = VerboseVersionList::default().show_archive(&versions());
    assert_eq!(
        lines,
        [
            "b0000                complete   2023-01-02 03:04:05     1:02",
            "b0001                incomplete 2023-01-03 03:04:05         ",
        ]
    );
    let lines = VerboseVersionList::new().show_sizes(true).show_archive(&versions());
    assert_eq!(
        lines,
        [
            "b0000                complete   2023-01-02 03:04:05     1:02      12,345 MB",
            "b0001                incomplete 2023-01-03 03:04:05                    0 MB",
        ]
    );
}

#[test]
fn version_info_from_head_and_tail() {
    let info = |start_time, end_time: Option<i64>| Info {
        id: BandId::new(&[4]),
        is_closed: end_time.is_some(),
        start_time,
        end_time,
        index_hunk_count: None,
    };
    let shown = VersionInfo::from_info(info(100, Some(175)), "then".to_string(), Some(9));
    assert_eq!(shown.band_id, BandId::new(&[4]));
    assert!(shown.is_closed);
    assert_eq!(shown.start_time, "then");
    assert_eq!(shown.duration_secs, Some(75));
    assert_eq!(shown.tree_bytes, Some(9));
    let shown = VersionInfo::from_info(info(100, None), String::new(), None);
    assert!(!shown.is_closed);
    assert_eq!(shown.duration_secs, None);
    // A backup does not end before it starts.
    let shown = VersionInfo::from_info(info(100, Some(99)), String::new(), None);
    assert_eq!(shown.duration_secs, None);
    let shown = VersionInfo::from_info(info(-5, Some(5)), String::new(), None);
    assert_eq!(shown.duration_secs, Some(10));
    let shown = VersionInfo::from_info(info(-5, Some(-2)), String::new(), None);
    assert_eq!(shown.duration_secs, Some(3));
    let shown = VersionInfo::from_info(info(i64::MIN, Some(i64::MAX)), String::new(), None);
    assert_eq!(shown.duration_secs, Some(u64::MAX));
}

#[test]
fn durations_as_hours_minutes_seconds() {
    assert_eq!(duration_to_hms(0), "    0:00");
    assert_eq!(duration_to_hms(59), "    0:59");
    assert_eq!(duration_to_hms(60), "    1:00");
    assert_eq!(duration_to_hms(3599), "   59:59");
    assert_eq!(duration_to_hms(3600), " 1:00:00");
    assert_eq!(duration_to_hms(36_000 + 61), "10:01:01");
    assert_eq!(duration_to_hms(360_000), "100:00:00");
}

#[test]
fn megabytes_for_people() {
    assert_eq!(bytes_to_human_mb(0), "0 MB");
    assert_eq!(bytes_to_human_mb(999_999), "0 MB");
    assert_eq!(bytes_to_human_mb(1_000_000), "1 MB");
    assert_eq!(bytes_to_human_mb(999_000_000), "999 MB");
    assert_eq!(bytes_to_human_mb(1_000_000_000), "1,000 MB");
    assert_eq!(bytes_to_human_mb(1_234_567_000_000), "1,234,567 MB");
    assert_eq!(bytes_to_human_mb(1_002_003_000_000), "1,002,003 MB");
    assert_eq!(bytes_to_human_mb(u64::MAX), "18,446,744,073,709 MB");
}

#[test]
fn misc_functions() {
    let mut v = vec![1, 2, 3, 2];
    remove_item(&mut v, &2);
    assert_eq!(v, [1, 3, 2]);
    remove_item(&mut v, &7);
    assert_eq!(v, [1, 3, 2]);
    let mut empty: Vec<u8> = vec![];
    remove_item(&mut empty, &0u8);
    assert!(empty.is_empty());
    assert!(zero_u32(&0));
    assert!(!zero_u32(&1));
    assert!(zero_u64(&0));
    assert!(!zero_u64(&u64::MAX));
    assert_eq!(add_count(usize::MAX, 1), 0);
    assert_eq!(add_count(1, 2), 3);
}

#[test]
fn monitor_collects_counts_and_errors() {
    let mut monitor = CollectMonitor::new();
    assert_eq!(monitor.get_counter(Counter::BlockReads), 0);
    monitor.count(Counter::BlockReads, 2);
    monitor.count(Counter::BlockReads, 3);
    monitor.count(Counter::IndexWrites, 1);
    assert_eq!(monitor.get_counter(Counter::BlockReads), 5);
    assert_eq!(monitor.get_counter(Counter::IndexWrites), 1);
    assert_eq!(monitor.get_counter(Counter::BlockWrites), 0);
    monitor.error(Error::ArchiveEmpty);
    assert_eq!(monitor.error_count(), 1);
    assert_eq!(monitor.errors()[0].to_string(), "Archive has no bands");
}

#[test]
fn error_messages() {
    let band_id = BandId::new(&[3]);
    assert_eq!(
        Error::BandIncomplete { band_id: band_id.clone() }.to_string(),
        "Band b0003 is incomplete"
    );
    assert_eq!(
        Error::DeleteWithIncompleteBackup { band_id: band_id.clone() }.to_string(),
        "Can't delete blocks because the last band (b0003) is incomplete and may be in use"
    );
    assert_eq!(
        Error::DeleteWithConcurrentActivity.to_string(),
        "Can't continue with deletion because the archive was changed by another process"
    );
    assert_eq!(
        Error::UnsupportedArchiveVersion { version: "9".to_string() }.to_string(),
        "Unsupported archive version 9"
    );
    assert_eq!(
        Error::NewArchiveDirectoryNotEmpty.to_string(),
        "Directory for new archive is not empty"
    );
    let hash = BlockHash::hash_bytes(b"");
    assert_eq!(
        Error::BlockMissing { block_hash: hash.clone() }.to_string(),
        format!("Block {} is missing", hash.to_string())
    );
    let source = TransportError::new(ErrorKind::Other, "p", "disk on fire");
    assert!(!source.is_not_found());
    assert_eq!(Error::Transport { source }.to_string(), "disk on fire");
}

#[test]
fn memory_transport() {
    let mut t = MemoryTransport::new();
    assert_eq!(t.metadata("").unwrap().kind, Kind::Dir);
    assert!(t.metadata("a").unwrap_err().is_not_found());
    assert!(t.read_file("a").unwrap_err().is_not_found());
    t.create_dir("a").unwrap();
    t.create_dir("a").unwrap();
    t.create_dir("a/b").unwrap();
    t.write_file("a/f", b"one").unwrap();
    t.write_file("a/f", b"three").unwrap();
    t.write_file("a/b/g", b"").unwrap();
    t.write_file("top", b"t").unwrap();
    assert_eq!(t.read_file("a/f").unwrap(), b"three");
    let meta = t.metadata("a/f").unwrap();
    assert_eq!((meta.kind, meta.len), (Kind::File, 5));
    assert_eq!(t.metadata("a/b").unwrap().kind, Kind::Dir);
    assert_eq!(t.file_count(), 3);

    let list = t.list_dir("").unwrap();
    assert_eq!(list.files, ["top"]);
    assert_eq!(list.dirs, ["a"]);
    let list = t.list_dir("a").unwrap();
    assert_eq!(list.files, ["f"]);
    assert_eq!(list.dirs, ["b"]);
    let list = t.list_dir("nowhere").unwrap();
    assert!(list.files.is_empty() && list.dirs.is_empty());

    let sub = t.sub_transport("a");
    assert_eq!(sub.read_file("f").unwrap(), b"three");
    assert_eq!(sub.read_file("b/g").unwrap(), b"");
    assert_eq!(sub.metadata("").unwrap().kind, Kind::Dir);
    assert_eq!(sub.list_dir("").unwrap().dirs, ["b"]);
    assert_eq!(sub.file_count(), 2);

    assert!(t.remove_file("nothing").unwrap_err().is_not_found());
    t.remove_file("top").unwrap();
    assert!(t.read_file("top").is_err());
    t.write_file("ab", b"not below a").unwrap();
    t.remove_dir_all("a").unwrap();
    assert_eq!(t.file_count(), 1);
    assert_eq!(t.read_file("ab").unwrap(), b"not below a");
    assert!(t.metadata("a").unwrap_err().is_not_found());
    assert!(t.metadata("a/b").unwrap_err().is_not_found());
    assert!(t.remove_dir("a").unwrap_err().is_not_found());
    t.create_dir("e").unwrap();
    t.remove_dir("e").unwrap();
    assert!(t.metadata("e").is_err());
}

#[test]
fn debug_transport_describes_and_hands_on() {
    let mut t = DebugTransport::new(MemoryTransport::new());
    assert_eq!(t.describe("read_file", "x"), "read_file: /x");
    t.create_dir("d").unwrap();
    t.write_file("d/f", b"content").unwrap();
    assert_eq!(t.read_file("d/f").unwrap(), b"content");
    assert_eq!(t.metadata("d/f").unwrap().len, 7);
    assert_eq!(t.list_dir("d").unwrap().files, ["f"]);
    let mut sub = t.sub_transport("d");
    assert_eq!(sub.describe("write_file", "g"), "write_file: d/g");
    assert_eq!(sub.read_file("f").unwrap(), b"content");
    sub.create_dir("e").unwrap();
    let subsub = sub.sub_transport("e");
    assert_eq!(subsub.describe("list_dir", ""), "list_dir: d/e/");
    t.remove_file("d/f").unwrap();
    t.remove_dir_all("d").unwrap();
    t.create_dir("z").unwrap();
    t.remove_dir("z").unwrap();
    assert_eq!(t.into_inner().file_count(), 0);
    let entry = DirEntry { name: "n".to_string(), kind: Kind::File, len: 1 };
    assert_eq!(entry.clone(), entry);
}

#[test]
fn block_indexes() {
    let mut blockdir = BlockDir::open(MemoryTransport::new());
    let mut stats = BackupStats::new();
    let mut monitor = CollectMonitor::new();
    let stored = blockdir.store_or_deduplicate(b"stored", &mut stats, &mut monitor).unwrap();
    let other = BlockHash::hash_bytes(b"other");

    let mut index = FsBlockIndex::new(blockdir.into_transport());
    assert!(index.contains_block(&stored).unwrap());
    assert!(!index.contains_block(&other).unwrap());
    index.register_block(&other);
    assert!(!index.contains_block(&other).unwrap());
    index.delete_block(&stored);
    assert!(index.contains_block(&stored).unwrap());

    let mut index = CachedBlockIndex::load(index.into_transport(), &mut monitor).unwrap();
    assert!(index.contains_block(&stored).unwrap());
    assert!(!index.contains_block(&other).unwrap());
    index.register_block(&other);
    assert!(index.contains_block(&other).unwrap());
    index.delete_block(&stored);
    assert!(!index.contains_block(&stored).unwrap());
    assert_eq!(index.into_transport().file_count(), 1);
}
