use conserve::apath::Apath;
use conserve::archive::{previous_existing_band, Archive, ArchiveHeader};
use conserve::backup::{push_entry, store_file};
use conserve::entry::UnixTime;
use conserve::excludes::filter_entries;
use conserve::index::{IndexBuilder, IndexEntry};
use conserve::stats::BackupStats;
use conserve::stitch::{stitch_bands, BandIndex};
use conserve::band::{
    band_version_supported, hunk_relpath, read_hunk, write_hunk, Band, Head, Tail,
};
use conserve::bandid::BandId;
use conserve::errors::Error;
use conserve::memory::MemoryTransport;
use conserve::monitor::{CollectMonitor, Counter};
use conserve::stored_tree::{
    band_selection_policy_from_opt, resolve_band_id, BandSelectionPolicy, StoredTree,
};
use conserve::transport::Transport;

fn header(version: &str) -> ArchiveHeader {
    ArchiveHeader { conserve_archive_version: version.to_string() }
}

fn head(version: Option<&str>, flags: &[&str]) -> Head {
    Head {
        start_time: 1_700_000_000,
        band_format_version: version.map(|v| v.to_string()),
        format_flags: flags.iter().map(|f| f.to_string()).collect(),
    }
}

#[test]
fn create_then_open_archive() {
    let archive = Archive::create(MemoryTransport::new()).unwrap();
    assert_eq!(
        archive.read_file("CONSERVE").unwrap(),
        b"{\"conserve_archive_version\":\"0.6\"}\n".to_vec()
    );
    let listing = archive.transport().list_dir("").unwrap();
    assert_eq!(listing.files, vec!["CONSERVE".to_string()]);
    assert_eq!(listing.dirs, vec!["d".to_string()]);
    assert!(archive.list_band_ids().unwrap().is_empty());
    assert_eq!(archive.last_band_id().unwrap(), None);
    assert_eq!(archive.last_complete_band().unwrap(), None);

    let (transport, _blocks) = archive.into_transports();
    assert_eq!(
        Archive::<MemoryTransport>::read_header(&transport).unwrap(),
        Archive::<MemoryTransport>::header_bytes()
    );
    assert!(Archive::open(transport, &header("0.6")).is_ok());
}

#[test]
fn archive_of_another_version_is_not_opened() {
    match Archive::open(MemoryTransport::new(), &header("0.7")) {
        Err(Error::UnsupportedArchiveVersion { version }) => assert_eq!(version, "0.7"),
        _ => panic!("opened"),
    }
}

#[test]
fn no_header_means_no_archive() {
    let transport = MemoryTransport::new();
    assert!(matches!(
        Archive::<MemoryTransport>::read_header(&transport),
        Err(Error::NotAnArchive)
    ));
    assert_eq!(Error::NotAnArchive.to_string(), "Not a Conserve archive");
}

#[test]
fn new_archive_directory_must_be_empty() {
    let mut transport = MemoryTransport::new();
    transport.write_file("stray", b"x").unwrap();
    assert!(matches!(
        Archive::create(transport),
        Err(Error::NewArchiveDirectoryNotEmpty)
    ));
    let mut transport = MemoryTransport::new();
    transport.create_dir("subdir").unwrap();
    assert!(matches!(
        Archive::create(transport),
        Err(Error::NewArchiveDirectoryNotEmpty)
    ));
    // An archive is not created over an archive.
    let (transport, _) = Archive::create(MemoryTransport::new()).unwrap().into_transports();
    assert!(matches!(
        Archive::create(transport),
        Err(Error::NewArchiveDirectoryNotEmpty)
    ));
}

#[test]
fn bands_are_numbered_from_zero() {
    let mut archive = Archive::create(MemoryTransport::new()).unwrap();
    let b0 = Band::create(&mut archive, b"head 0").unwrap();
    assert_eq!(b0.id(), &BandId::zero());
    assert_eq!(b0.id().to_string(), "b0000");
    let b1 = Band::create(&mut archive, b"head 1").unwrap();
    assert_eq!(b1.id().to_string(), "b0001");
    assert_eq!(
        archive.list_band_ids().unwrap(),
        vec![BandId::new(&[0]), BandId::new(&[1])]
    );
    assert_eq!(archive.last_band_id().unwrap(), Some(BandId::new(&[1])));
    assert_eq!(Band::read_head(&archive, b1.id()).unwrap(), b"head 1".to_vec());
    assert!(archive.band_exists(b0.id()).unwrap());
    assert!(!archive.band_exists(&BandId::new(&[2])).unwrap());
    match Band::read_head(&archive, &BandId::new(&[2])) {
        Err(Error::BandHeadMissing { band_id }) => assert_eq!(band_id, BandId::new(&[2])),
        other => panic!("unexpected {:?}", other),
    }

    // A band is closed exactly when its tail is there.
    assert!(!b0.is_closed(&archive).unwrap());
    assert_eq!(Band::read_tail(&archive, b0.id()).unwrap(), None);
    assert_eq!(archive.last_complete_band().unwrap(), None);
    b0.close(&mut archive, b"tail 0").unwrap();
    assert!(b0.is_closed(&archive).unwrap());
    assert!(archive.band_is_closed(b0.id()).unwrap());
    assert!(!archive.band_is_closed(b1.id()).unwrap());
    assert_eq!(Band::read_tail(&archive, b0.id()).unwrap(), Some(b"tail 0".to_vec()));
    assert_eq!(archive.last_complete_band().unwrap(), Some(BandId::zero()));

    // A new band comes after the last, also after a gap.
    archive.create_dir("b0007").unwrap();
    archive.create_dir("not a band").unwrap();
    archive.create_dir("b").unwrap();
    let b8 = Band::create(&mut archive, b"head 8").unwrap();
    assert_eq!(b8.id().to_string(), "b0008");
}

#[test]
fn duplicate_band_directories_are_an_error() {
    let mut archive = Archive::create(MemoryTransport::new()).unwrap();
    archive.create_dir("b0001").unwrap();
    archive.create_dir("b1").unwrap();
    match archive.list_band_ids() {
        Err(Error::DuplicateBandDirectory { band_id }) => {
            assert_eq!(band_id, BandId::new(&[1]))
        }
        other => panic!("unexpected {:?}", other),
    }
    assert_eq!(
        Error::DuplicateBandDirectory { band_id: BandId::new(&[1]) }.to_string(),
        "Duplicated band directory for b0001"
    );
}

#[test]
fn previous_band_skips_what_is_deleted() {
    let mut archive = Archive::create(MemoryTransport::new()).unwrap();
    for _ in 0..5 {
        Band::create(&mut archive, b"{}").unwrap();
    }
    archive.remove_dir_all("b0003").unwrap();
    archive.remove_dir_all("b0002").unwrap();
    assert_eq!(
        previous_existing_band(&archive, BandId::new(&[4])),
        Some(BandId::new(&[1]))
    );
    assert_eq!(
        previous_existing_band(&archive, BandId::new(&[1])),
        Some(BandId::new(&[0]))
    );
    assert_eq!(previous_existing_band(&archive, BandId::new(&[0])), None);
    assert_eq!(
        previous_existing_band(&archive, BandId::new(&[9])),
        Some(BandId::new(&[4]))
    );
}

#[test]
fn hunk_comes_back_as_it_was_written() {
    let mut archive = Archive::create(MemoryTransport::new()).unwrap();
    let band = Band::create(&mut archive, b"{}").unwrap();
    let mut monitor = CollectMonitor::new();
    let serialized = b"[{\"apath\":\"/\",\"kind\":\"Dir\"}]".to_vec();
    assert_eq!(read_hunk(&archive, band.id(), 0, &mut monitor).unwrap(), None);
    write_hunk(&mut archive, band.id(), 0, &serialized, &mut monitor).unwrap();
    assert_eq!(monitor.get_counter(Counter::IndexWrites), 1);
    assert_eq!(hunk_relpath(band.id(), 0), "b0000/i/0000/000000000");
    assert_eq!(hunk_relpath(band.id(), 123_456), "b0000/i/0012/000123456");
    assert_eq!(
        hunk_relpath(&BandId::new(&[3, 14]), 4_000_000_000),
        "b0003.0014/i/400000/4000000000"
    );
    let stored = archive.read_file("b0000/i/0000/000000000").unwrap();
    assert_ne!(stored, serialized);
    assert_eq!(
        read_hunk(&archive, band.id(), 0, &mut monitor).unwrap(),
        Some(serialized)
    );
    assert_eq!(monitor.get_counter(Counter::IndexReads), 1);
    assert_eq!(read_hunk(&archive, band.id(), 1, &mut monitor).unwrap(), None);
    // What is no compressed data is an error.
    archive.write_file("b0000/i/0000/000000001", b"\xff\xff").unwrap();
    assert!(matches!(
        read_hunk(&archive, band.id(), 1, &mut monitor),
        Err(Error::Compression { .. })
    ));
}

#[test]
fn band_of_unsupported_version_is_not_opened() {
    assert!(band_version_supported("0.6.3"));
    assert!(band_version_supported("0.6.2"));
    assert!(band_version_supported("0.6"));
    assert!(band_version_supported("0.5.99"));
    assert!(!band_version_supported("0.6.4"));
    assert!(!band_version_supported("0.7"));
    assert!(!band_version_supported("23.1.1"));
    assert!(!band_version_supported(""));
    assert!(!band_version_supported("0.6.x"));
    assert!(!band_version_supported("0..6"));

    let band = Band::open(BandId::zero(), &head(Some("0.6.3"), &[])).unwrap();
    assert_eq!(band.id(), &BandId::zero());
    assert!(Band::open(BandId::zero(), &head(None, &[])).is_ok());
    match Band::open(BandId::new(&[2]), &head(Some("0.8.8"), &[])) {
        Err(Error::UnsupportedBandVersion { band_id, version }) => {
            assert_eq!(band_id, BandId::new(&[2]));
            assert_eq!(version, "0.8.8");
        }
        other => panic!("unexpected {:?}", other),
    }
    match Band::open(BandId::new(&[2]), &head(Some("0.6.3"), &["wibble"])) {
        Err(Error::UnsupportedBandFormatFlags { band_id, unsupported_flags }) => {
            assert_eq!(band_id, BandId::new(&[2]));
            assert_eq!(unsupported_flags, vec!["wibble".to_string()]);
        }
        other => panic!("unexpected {:?}", other),
    }

    let info = band.get_info(&head(Some("0.6.3"), &[]), None);
    assert!(!info.is_closed);
    assert_eq!(info.start_time, 1_700_000_000);
    assert_eq!(info.end_time, None);
    let tail = Tail { end_time: 1_700_000_060, index_hunk_count: Some(2) };
    let info = band.get_info(&head(Some("0.6.3"), &[]), Some(&tail));
    assert!(info.is_closed);
    assert_eq!(info.end_time, Some(1_700_000_060));
    assert_eq!(info.index_hunk_count, Some(2));
}

#[test]
fn cant_open_no_versions() {
    let af = Archive::create(MemoryTransport::new()).unwrap();
    assert!(StoredTree::open_last(&af, &head(Some("0.6.3"), &[])).is_err());
    assert!(matches!(StoredTree::open_last(&af, &head(Some("0.6.3"), &[])), Err(Error::ArchiveEmpty)));
}

/// Stores a version of a tree with these files, each holding `contents`,
/// a directory `subdir` and a symlink `link`, and returns its index.
fn store_version(af: &mut Archive<MemoryTransport>, files: &[&str]) -> BandIndex {
    let t0 = UnixTime { secs: 0, nanos: 0 };
    let band = Band::create(af, b"{}").unwrap();
    let mut stats = BackupStats::new();
    let mut monitor = CollectMonitor::new();
    let mut entries = vec![
        IndexEntry::directory(Apath::root(), t0),
        IndexEntry::symlink(Apath::from_str("/link").unwrap(), "target".to_owned(), t0),
        IndexEntry::directory(Apath::from_str("/subdir").unwrap(), t0),
    ];
    for name in files {
        entries.push(
            store_file(
                af.block_dir_mut(),
                Apath::from_str(name).unwrap(),
                t0,
                b"contents",
                &mut stats,
                &mut monitor,
            )
            .unwrap(),
        );
    }
    entries.sort_by(|a, b| {
        if a.apath.precedes(&b.apath) {
            std::cmp::Ordering::Less
        } else if a.apath.same_as(&b.apath) {
            std::cmp::Ordering::Equal
        } else {
            std::cmp::Ordering::Greater
        }
    });
    let mut builder = IndexBuilder::new();
    let mut hunks = Vec::new();
    for entry in entries {
        assert!(builder.can_push(&entry));
        if let Some(hunk) = push_entry(&mut builder, entry) {
            hunks.push(hunk.entries);
        }
    }
    let (last, _) = builder.finish();
    if let Some(hunk) = last {
        hunks.push(hunk.entries);
    }
    band.close(af, b"{}").unwrap();
    BandIndex { id: band.id().clone(), opens: true, closed: true, hunks }
}

#[test]
fn open_stored_tree() {
    let mut af = Archive::create(MemoryTransport::new()).unwrap();
    // Two complete versions, and a third that was interrupted.
    let bands = vec![
        store_version(&mut af, &["/hello", "/subdir/subfile"]),
        store_version(&mut af, &["/hello", "/hello2", "/subdir/subfile"]),
    ];
    let open = Band::create(&mut af, b"{}").unwrap();

    let last_band_id = af.last_complete_band().unwrap().unwrap();
    let st = StoredTree::open_last(&af, &head(Some("0.6.3"), &[])).unwrap();
    assert_eq!(st.band(), &last_band_id);
    assert_eq!(st.band().to_string(), "b0001");
    assert!(st.is_closed(&af).unwrap());

    let entries: Vec<IndexEntry> = stitch_bands(&bands, st.band()).into_iter().flatten().collect();
    let names: Vec<String> = filter_entries(entries, &Apath::root(), st.excludes())
        .into_iter()
        .map(|e| e.apath.as_str().to_owned())
        .collect();
    let expected = vec!["/", "/hello", "/hello2", "/link", "/subdir", "/subdir/subfile"];
    assert_eq!(expected, names);
    let first: Vec<String> = stitch_bands(&bands, &BandId::zero())
        .into_iter()
        .flatten()
        .map(|e| e.apath.as_str().to_owned())
        .collect();
    assert_eq!(first, vec!["/", "/hello", "/link", "/subdir", "/subdir/subfile"]);

    // A version that is not complete is opened only on request.
    match StoredTree::open_version(&af, open.id(), &head(None, &[])) {
        Err(Error::BandIncomplete { band_id }) => assert_eq!(&band_id, open.id()),
        _ => panic!("opened"),
    }
    let st = StoredTree::open_incomplete_version(&af, open.id(), &head(None, &[])).unwrap();
    assert!(!st.is_closed(&af).unwrap());
    assert!(StoredTree::open_version(&af, &BandId::zero(), &head(None, &[])).is_ok());
    assert!(matches!(
        StoredTree::open_version(&af, &BandId::new(&[9]), &head(None, &[])),
        Err(Error::BandHeadMissing { .. })
    ));
    assert!(matches!(
        StoredTree::open_incomplete_version(&af, &BandId::new(&[9]), &head(None, &[])),
        Err(Error::BandHeadMissing { .. })
    ));
}

#[test]
fn band_selection() {
    assert_eq!(band_selection_policy_from_opt(&None), BandSelectionPolicy::Latest);
    assert_eq!(
        band_selection_policy_from_opt(&Some(BandId::new(&[3]))),
        BandSelectionPolicy::Specified(BandId::new(&[3]))
    );
    let mut af = Archive::create(MemoryTransport::new()).unwrap();
    assert!(matches!(
        resolve_band_id(&af, BandSelectionPolicy::Latest),
        Err(Error::ArchiveEmpty)
    ));
    assert!(matches!(
        resolve_band_id(&af, BandSelectionPolicy::LatestClosed),
        Err(Error::ArchiveEmpty)
    ));
    let b0 = Band::create(&mut af, b"{}").unwrap();
    b0.close(&mut af, b"{}").unwrap();
    let b1 = Band::create(&mut af, b"{}").unwrap();
    assert_eq!(resolve_band_id(&af, BandSelectionPolicy::Latest).unwrap(), *b1.id());
    assert_eq!(resolve_band_id(&af, BandSelectionPolicy::LatestClosed).unwrap(), *b0.id());
    assert_eq!(
        resolve_band_id(&af, BandSelectionPolicy::Specified(BandId::new(&[7]))).unwrap(),
        BandId::new(&[7])
    );
}

#[test]
fn files_of_the_archive_directory_in_memory() {
    let mut archive = Archive::create(MemoryTransport::new()).unwrap();
    archive.create_dir("side").unwrap();
    archive.create_dir("side").unwrap();
    archive.write_file("side/note", b"one").unwrap();
    archive.write_file("side/note", b"two").unwrap();
    assert_eq!(archive.read_file("side/note").unwrap(), b"two");
    assert!(archive.is_file("side/note").unwrap());
    assert!(archive.remove_file("side/other").unwrap_err().is_not_found());
    archive.remove_file("side/note").unwrap();
    assert!(!archive.is_file("side/note").unwrap());
    assert!(archive.remove_file("side/note").unwrap_err().is_not_found());
    archive.write_file("side/a", b"a").unwrap();
    archive.write_file("side/deep", b"b").unwrap();
    archive.remove_dir_all("side").unwrap();
    assert!(!archive.is_file("side/a").unwrap());
    assert!(!archive.is_file("side/deep").unwrap());
    archive.remove_dir_all("side").unwrap();
    assert!(archive.is_file("CONSERVE").unwrap());
}

#[test]
fn no_band_before_the_first_that_is_there() {
    let mut archive = Archive::create(MemoryTransport::new()).unwrap();
    assert_eq!(previous_existing_band(&archive, BandId::new(&[7])), None);
    for _ in 0..3 {
        Band::create(&mut archive, b"{}").unwrap();
    }
    archive.remove_dir_all("b0000").unwrap();
    archive.remove_dir_all("b0001").unwrap();
    assert_eq!(previous_existing_band(&archive, BandId::new(&[2])), None);
    assert_eq!(
        previous_existing_band(&archive, BandId::new(&[3])),
        Some(BandId::new(&[2]))
    );
    assert_eq!(previous_existing_band(&archive, BandId::new(&[2, 5])), None);
}

#[test]
fn version_of_a_band_that_cannot_be_read_is_not_opened() {
    let mut af = Archive::create(MemoryTransport::new()).unwrap();
    let band = Band::create(&mut af, b"{}").unwrap();
    band.close(&mut af, b"{}").unwrap();
    let id = band.id();
    assert!(StoredTree::open_version(&af, id, &head(Some("0.6.3"), &[])).is_ok());
    assert!(StoredTree::open_version(&af, id, &head(Some("0.5"), &[])).is_ok());
    match StoredTree::open_version(&af, id, &head(Some("0.8.8"), &[])) {
        Err(Error::UnsupportedBandVersion { band_id, version }) => {
            assert_eq!(&band_id, id);
            assert_eq!(version, "0.8.8");
        }
        other => panic!("unexpected {:?}", other.map(|_| ())),
    }
    match StoredTree::open_incomplete_version(&af, id, &head(Some("0.6.3"), &["wibble"])) {
        Err(Error::UnsupportedBandFormatFlags { band_id, unsupported_flags }) => {
            assert_eq!(&band_id, id);
            assert_eq!(unsupported_flags, ["wibble"]);
        }
        other => panic!("unexpected {:?}", other.map(|_| ())),
    }
    assert!(matches!(
        StoredTree::open_last(&af, &head(Some("1.0"), &[])),
        Err(Error::UnsupportedBandVersion { .. })
    ));
    // That the head is missing is found before what the head says.
    assert!(matches!(
        StoredTree::open_version(&af, &BandId::new(&[5]), &head(Some("1.0"), &[])),
        Err(Error::BandHeadMissing { .. })
    ));
    // What the head says is found before that the band is incomplete.
    let open = Band::create(&mut af, b"{}").unwrap();
    assert!(matches!(
        StoredTree::open_version(&af, open.id(), &head(Some("1.0"), &[])),
        Err(Error::UnsupportedBandVersion { .. })
    ));
    assert!(matches!(
        StoredTree::open_version(&af, open.id(), &head(None, &[])),
        Err(Error::BandIncomplete { .. })
    ));
}
