use conserve::blockdir::{block_relpath, hashes_among, pick_subdirs, BlockDir};
use conserve::compress::compress;
use conserve::blockhash::BlockHash;
use conserve::errors::Error;
use conserve::index::Address;
use conserve::memory::MemoryTransport;
use conserve::monitor::{CollectMonitor, Counter};
use conserve::stats::BackupStats;
use conserve::transport::Transport;

const TMP_PREFIX: &str = "tmp";

#[test]
fn empty_block_file_counts_as_not_present() {
    // Due to an interruption or system crash we might end up with a block
    // file with 0 bytes. It's not valid compressed data. We just treat
    // the block as not present at all.
    let mut blockdir = BlockDir::open(MemoryTransport::new());
    let mut stats = BackupStats::new();
    let mut monitor = CollectMonitor::new();
    let hash = blockdir
        .store_or_deduplicate(b"stuff", &mut stats, &mut monitor)
        .unwrap();
    assert_eq!(monitor.get_counter(Counter::BlockWrites), 1);
    assert_eq!(monitor.get_counter(Counter::DeduplicatedBlocks), 0);
    assert_eq!(monitor.get_counter(Counter::BlockExistenceCacheMiss), 1);
    assert!(blockdir.contains(&hash, &mut monitor).unwrap());
    assert_eq!(monitor.get_counter(Counter::BlockExistenceCacheMiss), 1);
    assert_eq!(monitor.get_counter(Counter::BlockExistenceCacheHit), 1); // Since we just wrote it, we know it's there.

    // Open again to get a fresh cache
    let mut transport = blockdir.into_transport();
    // Truncate block
    transport.write_file(&block_relpath(&hash), b"").unwrap();
    let mut blockdir = BlockDir::open(transport);
    let mut monitor = CollectMonitor::new();
    assert!(!blockdir.contains(&hash, &mut monitor).unwrap());
    assert_eq!(monitor.get_counter(Counter::BlockExistenceCacheHit), 0);
    assert_eq!(monitor.get_counter(Counter::BlockExistenceCacheMiss), 1);
}

#[test]
fn temp_files_are_not_returned_as_blocks() {
    let mut transport = MemoryTransport::new();
    transport.create_dir("123").unwrap();
    transport
        .write_file(&format!("123/{}{}", TMP_PREFIX, "123123123"), b"123")
        .unwrap();
    let blockdir = BlockDir::open(transport);
    let mut monitor = CollectMonitor::new();
    let blocks = blockdir.blocks(&mut monitor).unwrap();
    assert_eq!(blocks, []);
}

#[test]
fn cache_hit() {
    let mut blockdir = BlockDir::open(MemoryTransport::new());
    let mut stats = BackupStats::new();
    let content = b"stuff".to_vec();
    let hash = blockdir
        .store_or_deduplicate(&content, &mut stats, &mut CollectMonitor::new())
        .unwrap();
    assert_eq!(blockdir.stats().cache_hit, 0);

    let mut monitor = CollectMonitor::new();
    assert!(blockdir.contains(&hash, &mut monitor).unwrap());
    assert_eq!(blockdir.stats().cache_hit, 1);
    assert_eq!(monitor.get_counter(Counter::BlockExistenceCacheHit), 1);

    let mut monitor = CollectMonitor::new();
    let retrieved = blockdir.get_block_content(&hash, &mut monitor).unwrap();
    assert_eq!(content, retrieved);
    assert_eq!(monitor.get_counter(Counter::BlockContentCacheHit), 1);
    assert_eq!(monitor.get_counter(Counter::BlockContentCacheMiss), 0);
    assert_eq!(blockdir.stats().cache_hit, 2); // hit against the value written

    let retrieved = blockdir.get_block_content(&hash, &mut monitor).unwrap();
    assert_eq!(monitor.get_counter(Counter::BlockContentCacheHit), 2);
    assert_eq!(monitor.get_counter(Counter::BlockContentCacheMiss), 0);
    assert_eq!(content, retrieved);
    assert_eq!(blockdir.stats().cache_hit, 3); // hit again
}

#[test]
fn existence_cache_hit() {
    let mut blockdir = BlockDir::open(MemoryTransport::new());
    let mut stats = BackupStats::new();
    let content = b"stuff".to_vec();
    let mut monitor = CollectMonitor::new();
    let hash = blockdir
        .store_or_deduplicate(&content, &mut stats, &mut monitor)
        .unwrap();

    // reopen
    let mut monitor = CollectMonitor::new();
    let mut blockdir = BlockDir::open(blockdir.into_transport());
    assert!(blockdir.contains(&hash, &mut monitor).unwrap());
    assert_eq!(blockdir.stats().cache_hit, 0);
    assert_eq!(monitor.get_counter(Counter::BlockExistenceCacheHit), 0);

    assert!(blockdir.contains(&hash, &mut monitor).unwrap());
    assert_eq!(blockdir.stats().cache_hit, 1);
    assert_eq!(monitor.get_counter(Counter::BlockExistenceCacheHit), 1);

    assert!(blockdir.contains(&hash, &mut monitor).unwrap());
    assert_eq!(blockdir.stats().cache_hit, 2);
    assert_eq!(monitor.get_counter(Counter::BlockExistenceCacheHit), 2);

    // actually reading the content is a miss
    let retrieved = blockdir.get_block_content(&hash, &mut monitor).unwrap();
    assert_eq!(content, retrieved);
    assert_eq!(monitor.get_counter(Counter::BlockContentCacheMiss), 1);
    assert_eq!(monitor.get_counter(Counter::BlockContentCacheHit), 0);
    assert_eq!(blockdir.stats().cache_hit, 2); // hit again
}

#[test]
fn hash_of_known_content() {
    let hash = BlockHash::hash_bytes(b"contents");
    assert_eq!(
        hash.to_string(),
        "9063990e5c5b2184877f92adace7c801a549b00c39cd7549877f06d5dd0d3a6ca6eee42d5\
         896bdac64831c8114c55cee664078bd105dc691270c92644ccb2ce7"
    );
    assert_eq!(BlockHash::from_str(&hash.to_string()), Some(hash));
}

#[test]
fn block_is_stored_compressed_under_its_hash() {
    let mut blockdir = BlockDir::open(MemoryTransport::new());
    let mut stats = BackupStats::new();
    let mut monitor = CollectMonitor::new();
    let hash = blockdir
        .store_or_deduplicate(b"contents", &mut stats, &mut monitor)
        .unwrap();
    let relpath = block_relpath(&hash);
    assert_eq!(&relpath[..4], "906/");
    assert_eq!(relpath.len(), 3 + 1 + 128);
    // Eight bytes compress to ten: the length, a tag, and the bytes.
    assert_eq!(blockdir.compressed_size(&hash).unwrap(), 10);
    assert_eq!(stats.written_blocks, 1);
    assert_eq!(stats.uncompressed_bytes, 8);
    assert_eq!(stats.compressed_bytes, 10);
    let stored = blockdir.transport().read_file(&relpath).unwrap();
    assert_ne!(stored, b"contents".to_vec());
    assert_eq!(blockdir.blocks(&mut monitor).unwrap(), vec![hash]);
}

#[test]
fn second_store_of_the_same_bytes_is_deduplicated() {
    let mut blockdir = BlockDir::open(MemoryTransport::new());
    let mut stats = BackupStats::new();
    let mut monitor = CollectMonitor::new();
    let first = blockdir
        .store_or_deduplicate(b"same bytes", &mut stats, &mut monitor)
        .unwrap();
    let files = blockdir.transport().file_count();
    let second = blockdir
        .store_or_deduplicate(b"same bytes", &mut stats, &mut monitor)
        .unwrap();
    assert_eq!(first, second);
    assert_eq!(blockdir.transport().file_count(), files);
    assert_eq!(files, 1);
    assert_eq!(stats.written_blocks, 1);
    assert_eq!(stats.deduplicated_blocks, 1);
    assert_eq!(stats.deduplicated_bytes, 10);
    assert_eq!(monitor.get_counter(Counter::DeduplicatedBlocks), 1);
    assert_eq!(monitor.get_counter(Counter::DeduplicatedBlockBytes), 10);
}

#[test]
fn empty_block_file_is_written_again() {
    let mut blockdir = BlockDir::open(MemoryTransport::new());
    let mut stats = BackupStats::new();
    let mut monitor = CollectMonitor::new();
    let hash = blockdir
        .store_or_deduplicate(b"heal me", &mut stats, &mut monitor)
        .unwrap();
    let mut transport = blockdir.into_transport();
    transport.write_file(&block_relpath(&hash), b"").unwrap();
    let mut blockdir = BlockDir::open(transport);
    assert!(!blockdir.contains(&hash, &mut monitor).unwrap());
    let mut stats = BackupStats::new();
    let again = blockdir
        .store_or_deduplicate(b"heal me", &mut stats, &mut monitor)
        .unwrap();
    assert_eq!(again, hash);
    assert_eq!(stats.written_blocks, 1);
    assert_eq!(stats.deduplicated_blocks, 0);
    assert!(blockdir.contains(&hash, &mut monitor).unwrap());
    // Read it back from storage, not from memory.
    let mut blockdir = BlockDir::open(blockdir.into_transport());
    assert_eq!(
        blockdir.get_block_content(&hash, &mut monitor).unwrap(),
        b"heal me".to_vec()
    );
}

#[test]
fn read_address_gives_the_range() {
    let mut blockdir = BlockDir::open(MemoryTransport::new());
    let mut stats = BackupStats::new();
    let mut monitor = CollectMonitor::new();
    let hash = blockdir
        .store_or_deduplicate(b"0123456789", &mut stats, &mut monitor)
        .unwrap();
    let address = Address { hash: hash.clone(), start: 2, len: 5 };
    assert_eq!(
        blockdir.read_address(&address, &mut monitor).unwrap(),
        b"23456".to_vec()
    );
    let whole = Address { hash: hash.clone(), start: 0, len: 10 };
    assert_eq!(
        blockdir.read_address(&whole, &mut monitor).unwrap(),
        b"0123456789".to_vec()
    );
    let too_long = Address { hash: hash.clone(), start: 6, len: 5 };
    match blockdir.read_address(&too_long, &mut monitor) {
        Err(Error::AddressTooLong { address, actual_len }) => {
            assert_eq!(address, too_long);
            assert_eq!(actual_len, 10);
        }
        other => panic!("unexpected {:?}", other),
    }
    let far = Address { hash, start: u64::MAX, len: 2 };
    assert!(matches!(
        blockdir.read_address(&far, &mut monitor),
        Err(Error::AddressTooLong { .. })
    ));
}

#[test]
fn corrupt_block_is_detected() {
    let mut blockdir = BlockDir::open(MemoryTransport::new());
    let mut stats = BackupStats::new();
    let mut monitor = CollectMonitor::new();
    let hash = blockdir
        .store_or_deduplicate(b"right", &mut stats, &mut monitor)
        .unwrap();
    let other = blockdir
        .store_or_deduplicate(b"wrong", &mut stats, &mut monitor)
        .unwrap();
    let mut transport = blockdir.into_transport();
    let wrong = transport.read_file(&block_relpath(&other)).unwrap();
    transport.write_file(&block_relpath(&hash), &wrong).unwrap();
    let mut blockdir = BlockDir::open(transport);
    match blockdir.get_block_content(&hash, &mut monitor) {
        Err(Error::BlockCorrupt { hash: reported }) => assert_eq!(reported, hash),
        other => panic!("unexpected {:?}", other),
    }
    // Bytes that are no compressed data at all.
    let mut transport = blockdir.into_transport();
    transport.write_file(&block_relpath(&hash), b"\xff\xff\xff").unwrap();
    let mut blockdir = BlockDir::open(transport);
    assert!(matches!(
        blockdir.get_block_content(&hash, &mut monitor),
        Err(Error::Compression { .. })
    ));
}

#[test]
fn block_that_is_not_there_is_missing() {
    let mut blockdir = BlockDir::open(MemoryTransport::new());
    let mut monitor = CollectMonitor::new();
    let hash = BlockHash::hash_bytes(b"never stored");
    assert!(!blockdir.contains(&hash, &mut monitor).unwrap());
    match blockdir.get_block_content(&hash, &mut monitor) {
        Err(Error::BlockMissing { block_hash }) => assert_eq!(block_hash, hash),
        other => panic!("unexpected {:?}", other),
    }
    let address = Address { hash: hash.clone(), start: 0, len: 1 };
    assert!(matches!(
        blockdir.read_address(&address, &mut monitor),
        Err(Error::BlockMissing { .. })
    ));
    assert!(matches!(
        conserve::filecontent::read_file_content(&mut blockdir, &vec![address], &mut monitor),
        Err(Error::BlockMissing { .. })
    ));
}

#[test]
fn delete_block_removes_the_file() {
    let mut blockdir = BlockDir::open(MemoryTransport::new());
    let mut stats = BackupStats::new();
    let mut monitor = CollectMonitor::new();
    let hash = blockdir
        .store_or_deduplicate(b"going", &mut stats, &mut monitor)
        .unwrap();
    blockdir.delete_block(&hash).unwrap();
    assert!(!blockdir.contains(&hash, &mut monitor).unwrap());
    assert_eq!(blockdir.transport().file_count(), 0);
    assert!(matches!(
        blockdir.delete_block(&hash),
        Err(Error::Transport { .. })
    ));
}

#[test]
fn subdirs_are_the_directories_of_three_bytes() {
    let mut transport = MemoryTransport::new();
    transport.create_dir("abc").unwrap();
    transport.create_dir("toolong").unwrap();
    transport.create_dir("ab").unwrap();
    transport.create_dir("abc/def").unwrap();
    transport.write_file("xyz", b"a file").unwrap();
    let blockdir = BlockDir::open(transport);
    assert_eq!(blockdir.subdirs().unwrap(), vec!["abc".to_string()]);
}

#[test]
fn content_of_a_hundred_blocks_is_held_in_memory() {
    let mut blockdir = BlockDir::open(MemoryTransport::new());
    let mut stats = BackupStats::new();
    let mut monitor = CollectMonitor::new();
    let mut hashes = Vec::new();
    for i in 0..101u32 {
        let content = format!("block {}", i);
        hashes.push(
            blockdir
                .store_or_deduplicate(content.as_bytes(), &mut stats, &mut monitor)
                .unwrap(),
        );
    }
    let mut monitor = CollectMonitor::new();
    // The last hundred are held; the first had to make room.
    assert_eq!(blockdir.get_block_content(&hashes[100], &mut monitor).unwrap(), b"block 100");
    assert_eq!(blockdir.get_block_content(&hashes[1], &mut monitor).unwrap(), b"block 1");
    assert_eq!(monitor.get_counter(Counter::BlockContentCacheHit), 2);
    assert_eq!(monitor.get_counter(Counter::BlockContentCacheMiss), 0);
    assert_eq!(blockdir.get_block_content(&hashes[0], &mut monitor).unwrap(), b"block 0");
    assert_eq!(monitor.get_counter(Counter::BlockContentCacheMiss), 1);
    assert_eq!(monitor.get_counter(Counter::BlockReads), 1);
    // That it exists is still known.
    assert!(blockdir.contains(&hashes[2], &mut monitor).unwrap());
    assert_eq!(monitor.get_counter(Counter::BlockExistenceCacheMiss), 0);
}

#[test]
fn names_that_are_hashes_are_picked_from_a_listing() {
    let hash = BlockHash::hash_bytes(b"stuff");
    let upper = hash.to_string().to_uppercase();
    let names = vec![
        "tmp-1234".to_string(),
        hash.to_string(),
        upper,
        hash.to_string()[..127].to_string(),
        String::new(),
        BlockHash::hash_bytes(b"other").to_string(),
    ];
    assert_eq!(
        hashes_among(&names),
        [BlockHash::hash_bytes(b"stuff"), BlockHash::hash_bytes(b"other")]
    );
    assert_eq!(hashes_among(&Vec::new()), []);
}

#[test]
fn validation_tells_what_is_wrong_with_each_block() {
    let mut blockdir = BlockDir::open(MemoryTransport::new());
    let mut stats = BackupStats::new();
    let mut monitor = CollectMonitor::new();
    let good = blockdir.store_or_deduplicate(b"good", &mut stats, &mut monitor).unwrap();
    let bad = blockdir.store_or_deduplicate(b"bad", &mut stats, &mut monitor).unwrap();
    let junk = blockdir.store_or_deduplicate(b"junk", &mut stats, &mut monitor).unwrap();
    let good_file = blockdir.transport().read_file(&block_relpath(&good)).unwrap();
    let mut transport = blockdir.into_transport();
    transport.write_file(&block_relpath(&bad), &good_file).unwrap();
    transport.write_file(&block_relpath(&junk), b"\xff\xff\xff\xff").unwrap();
    let mut blockdir = BlockDir::open(transport);
    let mut monitor = CollectMonitor::new();
    let lengths = blockdir.validate(&mut monitor).unwrap();
    assert_eq!(lengths.len(), 1);
    assert_eq!(lengths.get(&good), Some(4));
    assert_eq!(lengths.get(&bad), None);
    assert_eq!(monitor.error_count(), 2);
    let corrupt = monitor
        .errors()
        .iter()
        .filter(|e| matches!(e, Error::BlockCorrupt { hash } if hash == &bad))
        .count();
    let unreadable =
        monitor.errors().iter().filter(|e| matches!(e, Error::Compression { .. })).count();
    assert_eq!((corrupt, unreadable), (1, 1));
}

#[test]
fn asking_for_a_block_leaves_the_content_that_is_held() {
    let mut blockdir = BlockDir::open(MemoryTransport::new());
    let mut stats = BackupStats::new();
    let mut monitor = CollectMonitor::new();
    let hash = blockdir.store_or_deduplicate(b"stuff", &mut stats, &mut monitor).unwrap();
    let mut blockdir = BlockDir::open(blockdir.into_transport());
    let mut monitor = CollectMonitor::new();
    // Asking whether the block is there does not bring its content in.
    assert!(blockdir.contains(&hash, &mut monitor).unwrap());
    assert_eq!(blockdir.stats().cache_hit, 0);
    assert_eq!(blockdir.get_block_content(&hash, &mut monitor).unwrap(), b"stuff");
    assert_eq!(monitor.get_counter(Counter::BlockContentCacheMiss), 1);
    assert_eq!(blockdir.stats().read_blocks, 1);
    // A store of what is known is answered from memory and counted as such.
    let again = blockdir.store_or_deduplicate(b"stuff", &mut stats, &mut monitor).unwrap();
    assert_eq!(again, hash);
    assert_eq!(blockdir.stats().cache_hit, 1);
    assert_eq!(blockdir.stats().read_blocks, 1);
    // A failed read leaves what is known as it was.
    let missing = BlockHash::hash_bytes(b"never stored");
    assert!(matches!(
        blockdir.get_block_content(&missing, &mut monitor),
        Err(Error::BlockMissing { .. })
    ));
    assert!(blockdir.contains(&hash, &mut monitor).unwrap());
    assert_eq!(monitor.get_counter(Counter::BlockExistenceCacheHit), 2);
    // What is too long to be compressed is refused.
    assert!(compress(b"short").is_ok());
}

#[test]
fn names_of_three_bytes_are_picked_as_subdirectories() {
    let names: Vec<String> =
        ["abc", "ab", "abcd", "", "0f3", "d\u{e9}", "\u{e9}\u{e9}", "xyz"].iter().map(|n| n.to_string()).collect();
    assert_eq!(pick_subdirs(&names), ["abc", "0f3", "d\u{e9}", "xyz"]);
    assert!(pick_subdirs(&Vec::new()).is_empty());
}

#[test]
fn block_file_in_two_subdirectories_is_listed_twice() {
    let mut blockdir = BlockDir::open(MemoryTransport::new());
    let mut stats = BackupStats::new();
    let mut monitor = CollectMonitor::new();
    let hash = blockdir.store_or_deduplicate(b"stuff", &mut stats, &mut monitor).unwrap();
    let other = blockdir.store_or_deduplicate(b"other", &mut stats, &mut monitor).unwrap();
    let mut listed = blockdir.blocks(&mut monitor).unwrap();
    listed.sort_by_key(|h| h.to_string());
    let mut expected = vec![hash.clone(), other.clone()];
    expected.sort_by_key(|h| h.to_string());
    assert_eq!(listed, expected);
    // The same name in another subdirectory is another file.
    let mut transport = blockdir.into_transport();
    transport.create_dir("zzz").unwrap();
    transport.write_file(&format!("zzz/{}", hash.to_string()), b"x").unwrap();
    let blockdir = BlockDir::open(transport);
    let listed = blockdir.blocks(&mut monitor).unwrap();
    assert_eq!(listed.len(), 3);
    assert_eq!(listed.iter().filter(|h| **h == hash).count(), 2);
    assert_eq!(listed.iter().filter(|h| **h == other).count(), 1);
    assert_eq!(monitor.error_count(), 0);
}
