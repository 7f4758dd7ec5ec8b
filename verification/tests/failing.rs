use conserve::apath::Apath;
use conserve::archive::{previous_existing_band, Archive};
use conserve::backup::{blocks_present, can_reuse_stored, store_file, BackupOptions};
use conserve::blockdir::{listing_failure, presence_from};
use conserve::kind::Kind;
use conserve::entry::UnixTime;
use conserve::stored_tree::StoredTree;
use conserve::band::{read_hunk, write_hunk, Band, Head};
use conserve::bandid::BandId;
use conserve::blockdir::BlockDir;
use conserve::blockhash::BlockHash;
use conserve::errors::Error;
use conserve::gc::{begin_delete, finish_delete, DeleteOptions};
use conserve::blockset::BlockSet;
use conserve::memory::MemoryTransport;
use conserve::monitor::CollectMonitor;
use conserve::stats::BackupStats;
use conserve::transport::{ErrorKind, ListDir, Metadata, Transport, TransportError, Tree};

/// A transport whose operations fail when their name is on a list.
struct Flaky {
    inner: MemoryTransport,
    failing: Vec<&'static str>,
}

impl Flaky {
    fn new(failing: &[&'static str]) -> Flaky {
        Flaky { inner: MemoryTransport::new(), failing: failing.to_vec() }
    }

    fn check(&self, operation: &'static str, relpath: &str) -> Result<(), TransportError> {
        if self.failing.contains(&operation) {
            Err(TransportError::new(ErrorKind::Other, relpath, "it broke"))
        } else {
            Ok(())
        }
    }
}

impl Transport for Flaky {
    // The three that follow are spoken of in contracts only, and never run.
    fn tree(&self) -> Tree {
        unreachable!()
    }

    fn steady() -> bool {
        false
    }

    fn inv(&self) -> bool {
        unreachable!()
    }

    fn list_dir(&self, relpath: &str) -> Result<ListDir, TransportError> {
        if relpath.is_empty() {
            self.check("list_top", relpath)?;
        } else {
            self.check("list_dir", relpath)?;
        }
        self.inner.list_dir(relpath)
    }

    fn read_file(&self, relpath: &str) -> Result<Vec<u8>, TransportError> {
        self.check("read_file", relpath)?;
        self.inner.read_file(relpath)
    }

    fn write_file(&mut self, relpath: &str, content: &[u8]) -> Result<(), TransportError> {
        self.check("write_file", relpath)?;
        self.inner.write_file(relpath, content)
    }

    fn create_dir(&mut self, relpath: &str) -> Result<(), TransportError> {
        self.check("create_dir", relpath)?;
        self.inner.create_dir(relpath)
    }

    fn metadata(&self, relpath: &str) -> Result<Metadata, TransportError> {
        self.check("metadata", relpath)?;
        self.inner.metadata(relpath)
    }

    fn remove_file(&mut self, relpath: &str) -> Result<(), TransportError> {
        self.check("remove_file", relpath)?;
        self.inner.remove_file(relpath)
    }

    fn remove_dir(&mut self, relpath: &str) -> Result<(), TransportError> {
        self.check("remove_dir", relpath)?;
        self.inner.remove_dir(relpath)
    }

    fn remove_dir_all(&mut self, relpath: &str) -> Result<(), TransportError> {
        self.check("remove_dir_all", relpath)?;
        self.inner.remove_dir_all(relpath)
    }

    fn sub_transport(&self, relpath: &str) -> Flaky {
        Flaky { inner: self.inner.sub_transport(relpath), failing: self.failing.clone() }
    }
}

#[test]
fn block_that_cannot_be_written_is_an_error() {
    let mut blockdir = BlockDir::open(Flaky::new(&["write_file"]));
    let mut stats = BackupStats::new();
    let mut monitor = CollectMonitor::new();
    match blockdir.store_or_deduplicate(b"stuff", &mut stats, &mut monitor) {
        Err(Error::WriteBlock { hash, source }) => {
            assert_eq!(hash, BlockHash::hash_bytes(b"stuff").to_string());
            assert_eq!(source.message, "it broke");
        }
        other => panic!("unexpected {:?}", other),
    }
    assert_eq!(stats, BackupStats::new());
    let mut blockdir = BlockDir::open(Flaky::new(&["create_dir"]));
    assert!(matches!(
        blockdir.store_or_deduplicate(b"stuff", &mut stats, &mut monitor),
        Err(Error::WriteBlock { .. })
    ));
    assert_eq!(
        Error::WriteBlock {
            hash: "abc".to_string(),
            source: TransportError::new(ErrorKind::Other, "", "")
        }
        .to_string(),
        "Failed to write block abc"
    );
}

#[test]
fn block_that_cannot_be_read_is_an_error() {
    let mut blockdir = BlockDir::open(Flaky::new(&[]));
    let mut stats = BackupStats::new();
    let mut monitor = CollectMonitor::new();
    let hash = blockdir.store_or_deduplicate(b"stuff", &mut stats, &mut monitor).unwrap();
    let mut flaky = blockdir.into_transport();
    flaky.failing = vec!["read_file"];
    let mut blockdir = BlockDir::open(flaky);
    match blockdir.get_block_content(&hash, &mut monitor) {
        Err(Error::ReadBlock { hash: name, source }) => {
            assert_eq!(name, hash.to_string());
            assert_eq!(source.message, "it broke");
        }
        other => panic!("unexpected {:?}", other),
    }
}

#[test]
fn block_that_cannot_be_deleted_is_forgotten_all_the_same() {
    let mut blockdir = BlockDir::open(Flaky::new(&[]));
    let mut stats = BackupStats::new();
    let mut monitor = CollectMonitor::new();
    let hash = blockdir.store_or_deduplicate(b"stuff", &mut stats, &mut monitor).unwrap();
    let mut flaky = blockdir.into_transport();
    flaky.failing = vec!["remove_file"];
    let mut blockdir = BlockDir::open(flaky);
    // Read it, so that it is held in memory.
    blockdir.get_block_content(&hash, &mut monitor).unwrap();
    let mut monitor = CollectMonitor::new();
    assert!(blockdir.contains(&hash, &mut monitor).unwrap());
    assert_eq!(monitor.get_counter(conserve::monitor::Counter::BlockExistenceCacheHit), 1);
    assert!(blockdir.delete_block(&hash).is_err());
    // The next question goes to the storage, where the block still is.
    assert!(blockdir.contains(&hash, &mut monitor).unwrap());
    assert_eq!(monitor.get_counter(conserve::monitor::Counter::BlockExistenceCacheHit), 1);
    assert_eq!(monitor.get_counter(conserve::monitor::Counter::BlockExistenceCacheMiss), 1);
    blockdir.get_block_content(&hash, &mut monitor).unwrap();
    assert_eq!(monitor.get_counter(conserve::monitor::Counter::BlockContentCacheMiss), 1);
}

#[test]
fn presence_that_cannot_be_looked_up_is_an_error() {
    let mut blockdir = BlockDir::open(Flaky::new(&["metadata"]));
    let mut stats = BackupStats::new();
    let mut monitor = CollectMonitor::new();
    let hash = BlockHash::hash_bytes(b"stuff");
    assert!(matches!(
        blockdir.contains(&hash, &mut monitor),
        Err(Error::Transport { .. })
    ));
    assert!(matches!(
        blockdir.store_or_deduplicate(b"stuff", &mut stats, &mut monitor),
        Err(Error::Transport { .. })
    ));
    assert!(matches!(blockdir.compressed_size(&hash), Err(Error::Transport { .. })));
    assert!(matches!(BlockDir::create(Flaky::new(&["create_dir"])), Err(Error::Transport { .. })));
}

#[test]
fn subdirectory_that_cannot_be_listed_is_reported() {
    let mut flaky = Flaky::new(&[]);
    let mut stats = BackupStats::new();
    let mut monitor = CollectMonitor::new();
    let mut blockdir = BlockDir::open(flaky);
    blockdir.store_or_deduplicate(b"one", &mut stats, &mut monitor).unwrap();
    blockdir.store_or_deduplicate(b"two", &mut stats, &mut monitor).unwrap();
    flaky = blockdir.into_transport();
    flaky.failing = vec!["list_dir"];
    let mut blockdir = BlockDir::open(flaky);
    assert_eq!(blockdir.blocks(&mut monitor).unwrap(), []);
    assert_eq!(monitor.error_count(), 2);
    assert!(matches!(monitor.errors()[0], Error::ListBlocks { .. }));
    assert_eq!(monitor.errors()[0].to_string(), "Failed to list block files");
    let lengths = blockdir.validate(&mut monitor).unwrap();
    assert_eq!(lengths.len(), 0);
    assert_eq!(monitor.error_count(), 4);
    // Where not even the top can be listed nothing is reported, and the
    // listing fails.
    let mut flaky = blockdir.into_transport();
    flaky.failing = vec!["list_top"];
    let mut blockdir = BlockDir::open(flaky);
    assert!(matches!(blockdir.blocks(&mut monitor), Err(Error::Transport { .. })));
    assert!(matches!(blockdir.subdirs(), Err(Error::Transport { .. })));
    assert!(matches!(blockdir.validate(&mut monitor), Err(Error::Transport { .. })));
    assert_eq!(monitor.error_count(), 4);
}

#[test]
fn band_that_cannot_be_made_is_an_error() {
    let mut archive = Archive::create(Flaky::new(&[])).unwrap();
    let (mut transport, blocks) = archive.into_transports();
    transport.failing = vec!["write_file"];
    archive = Archive::from_transports(transport, blocks);
    assert!(matches!(
        Band::create(&mut archive, b"{}"),
        Err(Error::CreateBand { .. })
    ));
    let mut monitor = CollectMonitor::new();
    match write_hunk(&mut archive, &BandId::zero(), 3, b"[]", &mut monitor) {
        Err(Error::WriteIndex { path, .. }) => assert_eq!(path, "b0000/i/0000/000000003"),
        other => panic!("unexpected {:?}", other),
    }
    let (mut transport, blocks) = archive.into_transports();
    transport.failing = vec!["read_file", "list_top"];
    archive = Archive::from_transports(transport, blocks);
    assert!(matches!(
        read_hunk(&archive, &BandId::zero(), 3, &mut monitor),
        Err(Error::ReadIndex { .. })
    ));
    assert!(matches!(archive.list_band_ids(), Err(Error::ListBands { .. })));
    assert!(matches!(archive.last_band_id(), Err(Error::ListBands { .. })));
    assert!(matches!(
        Band::read_head(&archive, &BandId::zero()),
        Err(Error::Transport { .. })
    ));
    assert!(matches!(
        Archive::create(Flaky::new(&["create_dir"])),
        Err(Error::CreateArchiveDirectory { .. })
    ));
}

#[test]
fn deletion_that_fails_is_counted() {
    let mut archive = Archive::create(Flaky::new(&[])).unwrap();
    let band = Band::create(&mut archive, b"{}").unwrap();
    band.close(&mut archive, b"{}").unwrap();
    let mut stats = BackupStats::new();
    let mut monitor = CollectMonitor::new();
    let garbage = archive
        .block_dir_mut()
        .store_or_deduplicate(b"garbage", &mut stats, &mut monitor)
        .unwrap();
    let (mut transport, mut blocks) = archive.into_transports();
    transport.failing = vec!["remove_dir_all"];
    blocks.failing = vec!["remove_file"];
    archive = Archive::from_transports(transport, blocks);
    let options = DeleteOptions::default();
    let targets = [band.id().clone()];
    let plan = begin_delete(&mut archive, &targets, &options).unwrap();
    assert!(plan.keep().is_empty());
    let stats = finish_delete(
        &mut archive,
        plan,
        &targets,
        &BlockSet::new(),
        &options,
        &mut monitor,
    )
    .unwrap();
    assert_eq!(stats.unreferenced_block_count, 1);
    assert_eq!(stats.deleted_block_count, 0);
    assert_eq!(stats.deleted_band_count, 0);
    assert_eq!(stats.deletion_errors, 2);
    assert!(archive.block_dir_mut().contains(&garbage, &mut monitor).unwrap());
    assert_eq!(archive.list_band_ids().unwrap(), targets);
}

#[test]
fn band_that_cannot_be_looked_at_is_passed_over() {
    let mut archive = Archive::create(Flaky::new(&[])).unwrap();
    for _ in 0..3 {
        Band::create(&mut archive, b"{}").unwrap();
    }
    assert_eq!(
        previous_existing_band(&archive, BandId::new(&[2])),
        Some(BandId::new(&[1]))
    );
    let (mut transport, blocks) = archive.into_transports();
    transport.failing = vec!["metadata"];
    archive = Archive::from_transports(transport, blocks);
    assert!(matches!(archive.band_exists(&BandId::new(&[1])), Err(Error::Transport { .. })));
    assert_eq!(previous_existing_band(&archive, BandId::new(&[2])), None);
}

#[test]
fn file_whose_block_cannot_be_read_ends_the_check() {
    let mut archive = Archive::create(Flaky::new(&[])).unwrap();
    let band = Band::create(&mut archive, b"{}").unwrap();
    let st = StoredTree::open_incomplete_version(&archive, band.id(), &plain_head()).unwrap();
    let mut stats = BackupStats::new();
    let mut monitor = CollectMonitor::new();
    let entry = store_file(
        archive.block_dir_mut(),
        Apath::from_str("/file").unwrap(),
        UnixTime { secs: 0, nanos: 0 },
        b"content",
        &mut stats,
        &mut monitor,
    )
    .unwrap();
    let entries = vec![entry];
    let (transport, mut blocks) = archive.into_transports();
    blocks.failing = vec!["read_file"];
    let mut fresh = BlockDir::open(blocks);
    assert!(matches!(
        st.validate(&mut fresh, &entries, &mut monitor),
        Err(Error::ReadBlock { .. })
    ));
    assert!(st.validate(&mut fresh, &Vec::new(), &mut monitor).is_ok());
    let mut blocks = fresh.into_transport();
    blocks.failing = Vec::new();
    let mut fresh = BlockDir::open(blocks);
    assert!(st.validate(&mut fresh, &entries, &mut monitor).is_ok());
    assert_eq!(transport.failing.len(), 0);
}

#[test]
fn report_names_the_subdirectory_that_was_not_listed() {
    let mut stats = BackupStats::new();
    let mut monitor = CollectMonitor::new();
    let mut blockdir = BlockDir::open(Flaky::new(&[]));
    let one = blockdir.store_or_deduplicate(b"one", &mut stats, &mut monitor).unwrap();
    let mut flaky = blockdir.into_transport();
    flaky.failing = vec!["list_dir"];
    let blockdir = BlockDir::open(flaky);
    assert_eq!(blockdir.blocks(&mut monitor).unwrap(), []);
    match &monitor.errors()[0] {
        Error::ListBlocks { source } => {
            assert_eq!(source.path, one.to_string()[..3]);
            assert_eq!(source.kind, ErrorKind::Other);
            assert_eq!(source.message, "it broke");
        }
        other => panic!("unexpected {:?}", other),
    }
    match listing_failure("abc", TransportError::new(ErrorKind::Other, "elsewhere", "no")) {
        Error::ListBlocks { source } => {
            assert_eq!(source, TransportError::new(ErrorKind::Other, "abc", "no"));
        }
        other => panic!("unexpected {:?}", other),
    }
}

#[test]
fn presence_goes_by_what_the_storage_told() {
    let file = |len| Ok(Metadata { kind: Kind::File, len });
    assert_eq!(presence_from(file(7)), Ok(true));
    assert_eq!(presence_from(file(0)), Ok(false));
    assert_eq!(presence_from(Ok(Metadata { kind: Kind::Dir, len: 7 })), Ok(false));
    assert_eq!(
        presence_from(Err(TransportError::new(ErrorKind::NotFound, "p", "gone"))),
        Ok(false)
    );
    assert_eq!(
        presence_from(Err(TransportError::new(ErrorKind::Other, "p", "broke"))),
        Err(Error::Transport { source: TransportError::new(ErrorKind::Other, "p", "broke") })
    );
}

#[test]
fn file_whose_block_cannot_be_looked_at_is_stored_again() {
    let mut blockdir = BlockDir::open(Flaky::new(&[]));
    let mut stats = BackupStats::new();
    let mut monitor = CollectMonitor::new();
    let t0 = UnixTime { secs: 0, nanos: 0 };
    let path = || Apath::from_str("/f").unwrap();
    let basis = store_file(&mut blockdir, path(), t0, b"content", &mut stats, &mut monitor).unwrap();
    let options = BackupOptions { no_index: false };
    assert!(can_reuse_stored(&options, &basis, &basis, &mut blockdir, &mut monitor));
    let mut flaky = blockdir.into_transport();
    flaky.failing = vec!["metadata"];
    let mut blockdir = BlockDir::open(flaky);
    assert!(!blocks_present(&mut blockdir, &basis.addrs, &mut monitor));
    assert!(!can_reuse_stored(&options, &basis, &basis, &mut blockdir, &mut monitor));
}

fn plain_head() -> Head {
    Head { start_time: 0, band_format_version: None, format_flags: Vec::new() }
}
