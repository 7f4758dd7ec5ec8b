//! Counters of the work done, and the errors met on the way, collected for
//! whoever started a long operation.

use vstd::prelude::*;
use crate::errors::Error;

verus! {

/// Counters of events or bytes.
#[derive(Clone, Copy, Debug, PartialEq, Eq, Structural)]
pub enum Counter {
    BlockReads,
    BlockReadUncompressedBytes,
    BlockReadCompressedBytes,
    BlockWrites,
    BlockWriteUncompressedBytes,
    BlockWriteCompressedBytes,
    DeduplicatedBlocks,
    DeduplicatedBlockBytes,
    BlockContentCacheHit,
    BlockContentCacheMiss,
    BlockExistenceCacheHit,
    BlockExistenceCacheMiss,
    IndexReads,
    IndexReadCompressedBytes,
    IndexWrites,
    IndexWriteCompressedBytes,
}

/// The sum of a count and what is added to it, as a counter holds it: counts
/// wrap round at the highest number.
pub open spec fn counted(count: usize, delta: usize) -> usize {
    if count + delta > usize::MAX {
        (count + delta - usize::MAX - 1) as usize
    } else {
        (count + delta) as usize
    }
}

/// Adds to a count as a counter does.
pub fn add_count(count: usize, delta: usize) -> (r: usize)
    ensures
        r == counted(count, delta),
{
    count.wrapping_add(delta)
}

/// One more than a count, or the count itself if it is the highest number.
pub fn count_up(count: usize) -> (r: usize)
    ensures
        r > 0,
        r == (if count < usize::MAX {
            count + 1
        } else {
            usize::MAX as int
        }),
{
    if count < usize::MAX {
        count + 1
    } else {
        count
    }
}

/// What each counter stands at.
#[derive(Clone, Copy, Debug, PartialEq, Eq, Structural)]
pub struct Counts {
    pub block_reads: usize,
    pub block_read_uncompressed_bytes: usize,
    pub block_read_compressed_bytes: usize,
    pub block_writes: usize,
    pub block_write_uncompressed_bytes: usize,
    pub block_write_compressed_bytes: usize,
    pub deduplicated_blocks: usize,
    pub deduplicated_block_bytes: usize,
    pub block_content_cache_hit: usize,
    pub block_content_cache_miss: usize,
    pub block_existence_cache_hit: usize,
    pub block_existence_cache_miss: usize,
    pub index_reads: usize,
    pub index_read_compressed_bytes: usize,
    pub index_writes: usize,
    pub index_write_compressed_bytes: usize,
}

impl Counts {
    /// What a counter stands at.
    pub open spec fn value(self, counter: Counter) -> usize {
        match counter {
            Counter::BlockReads => self.block_reads,
            Counter::BlockReadUncompressedBytes => self.block_read_uncompressed_bytes,
            Counter::BlockReadCompressedBytes => self.block_read_compressed_bytes,
            Counter::BlockWrites => self.block_writes,
            Counter::BlockWriteUncompressedBytes => self.block_write_uncompressed_bytes,
            Counter::BlockWriteCompressedBytes => self.block_write_compressed_bytes,
            Counter::DeduplicatedBlocks => self.deduplicated_blocks,
            Counter::DeduplicatedBlockBytes => self.deduplicated_block_bytes,
            Counter::BlockContentCacheHit => self.block_content_cache_hit,
            Counter::BlockContentCacheMiss => self.block_content_cache_miss,
            Counter::BlockExistenceCacheHit => self.block_existence_cache_hit,
            Counter::BlockExistenceCacheMiss => self.block_existence_cache_miss,
            Counter::IndexReads => self.index_reads,
            Counter::IndexReadCompressedBytes => self.index_read_compressed_bytes,
            Counter::IndexWrites => self.index_writes,
            Counter::IndexWriteCompressedBytes => self.index_write_compressed_bytes,
        }
    }

    /// The counts with `delta` added to one counter.
    pub open spec fn plus(self, counter: Counter, delta: usize) -> Counts {
        match counter {
            Counter::BlockReads => Counts { block_reads: counted(self.block_reads, delta), ..self },
            Counter::BlockReadUncompressedBytes => Counts { block_read_uncompressed_bytes: counted(self.block_read_uncompressed_bytes, delta), ..self },
            Counter::BlockReadCompressedBytes => Counts { block_read_compressed_bytes: counted(self.block_read_compressed_bytes, delta), ..self },
            Counter::BlockWrites => Counts { block_writes: counted(self.block_writes, delta), ..self },
            Counter::BlockWriteUncompressedBytes => Counts { block_write_uncompressed_bytes: counted(self.block_write_uncompressed_bytes, delta), ..self },
            Counter::BlockWriteCompressedBytes => Counts { block_write_compressed_bytes: counted(self.block_write_compressed_bytes, delta), ..self },
            Counter::DeduplicatedBlocks => Counts { deduplicated_blocks: counted(self.deduplicated_blocks, delta), ..self },
            Counter::DeduplicatedBlockBytes => Counts { deduplicated_block_bytes: counted(self.deduplicated_block_bytes, delta), ..self },
            Counter::BlockContentCacheHit => Counts { block_content_cache_hit: counted(self.block_content_cache_hit, delta), ..self },
            Counter::BlockContentCacheMiss => Counts { block_content_cache_miss: counted(self.block_content_cache_miss, delta), ..self },
            Counter::BlockExistenceCacheHit => Counts { block_existence_cache_hit: counted(self.block_existence_cache_hit, delta), ..self },
            Counter::BlockExistenceCacheMiss => Counts { block_existence_cache_miss: counted(self.block_existence_cache_miss, delta), ..self },
            Counter::IndexReads => Counts { index_reads: counted(self.index_reads, delta), ..self },
            Counter::IndexReadCompressedBytes => Counts { index_read_compressed_bytes: counted(self.index_read_compressed_bytes, delta), ..self },
            Counter::IndexWrites => Counts { index_writes: counted(self.index_writes, delta), ..self },
            Counter::IndexWriteCompressedBytes => Counts { index_write_compressed_bytes: counted(self.index_write_compressed_bytes, delta), ..self },
        }
    }

    /// Counts that are all zero.
    pub open spec fn zeros() -> Counts {
        Counts {
            block_reads: 0,
            block_read_uncompressed_bytes: 0,
            block_read_compressed_bytes: 0,
            block_writes: 0,
            block_write_uncompressed_bytes: 0,
            block_write_compressed_bytes: 0,
            deduplicated_blocks: 0,
            deduplicated_block_bytes: 0,
            block_content_cache_hit: 0,
            block_content_cache_miss: 0,
            block_existence_cache_hit: 0,
            block_existence_cache_miss: 0,
            index_reads: 0,
            index_read_compressed_bytes: 0,
            index_writes: 0,
            index_write_compressed_bytes: 0,
        }
    }

    /// Counts that are all zero.
    pub fn zero() -> (r: Counts)
        ensures
            r == Counts::zeros(),
            forall|c: Counter| r.value(c) == 0,
    {
        Counts {
            block_reads: 0,
            block_read_uncompressed_bytes: 0,
            block_read_compressed_bytes: 0,
            block_writes: 0,
            block_write_uncompressed_bytes: 0,
            block_write_compressed_bytes: 0,
            deduplicated_blocks: 0,
            deduplicated_block_bytes: 0,
            block_content_cache_hit: 0,
            block_content_cache_miss: 0,
            block_existence_cache_hit: 0,
            block_existence_cache_miss: 0,
            index_reads: 0,
            index_read_compressed_bytes: 0,
            index_writes: 0,
            index_write_compressed_bytes: 0,
        }
    }

    /// What a counter stands at.
    pub fn get(&self, counter: Counter) -> (r: usize)
        ensures
            r == self.value(counter),
    {
        match counter {
            Counter::BlockReads => self.block_reads,
            Counter::BlockReadUncompressedBytes => self.block_read_uncompressed_bytes,
            Counter::BlockReadCompressedBytes => self.block_read_compressed_bytes,
            Counter::BlockWrites => self.block_writes,
            Counter::BlockWriteUncompressedBytes => self.block_write_uncompressed_bytes,
            Counter::BlockWriteCompressedBytes => self.block_write_compressed_bytes,
            Counter::DeduplicatedBlocks => self.deduplicated_blocks,
            Counter::DeduplicatedBlockBytes => self.deduplicated_block_bytes,
            Counter::BlockContentCacheHit => self.block_content_cache_hit,
            Counter::BlockContentCacheMiss => self.block_content_cache_miss,
            Counter::BlockExistenceCacheHit => self.block_existence_cache_hit,
            Counter::BlockExistenceCacheMiss => self.block_existence_cache_miss,
            Counter::IndexReads => self.index_reads,
            Counter::IndexReadCompressedBytes => self.index_read_compressed_bytes,
            Counter::IndexWrites => self.index_writes,
            Counter::IndexWriteCompressedBytes => self.index_write_compressed_bytes,
        }
    }

    /// Adds `delta` to a counter.
    pub fn count(&mut self, counter: Counter, delta: usize)
        ensures
            *final(self) == old(self).plus(counter, delta),
    {
        match counter {
            Counter::BlockReads => {
                self.block_reads = add_count(self.block_reads, delta);
            },
            Counter::BlockReadUncompressedBytes => {
                self.block_read_uncompressed_bytes = add_count(self.block_read_uncompressed_bytes, delta);
            },
            Counter::BlockReadCompressedBytes => {
                self.block_read_compressed_bytes = add_count(self.block_read_compressed_bytes, delta);
            },
            Counter::BlockWrites => {
                self.block_writes = add_count(self.block_writes, delta);
            },
            Counter::BlockWriteUncompressedBytes => {
                self.block_write_uncompressed_bytes = add_count(self.block_write_uncompressed_bytes, delta);
            },
            Counter::BlockWriteCompressedBytes => {
                self.block_write_compressed_bytes = add_count(self.block_write_compressed_bytes, delta);
            },
            Counter::DeduplicatedBlocks => {
                self.deduplicated_blocks = add_count(self.deduplicated_blocks, delta);
            },
            Counter::DeduplicatedBlockBytes => {
                self.deduplicated_block_bytes = add_count(self.deduplicated_block_bytes, delta);
            },
            Counter::BlockContentCacheHit => {
                self.block_content_cache_hit = add_count(self.block_content_cache_hit, delta);
            },
            Counter::BlockContentCacheMiss => {
                self.block_content_cache_miss = add_count(self.block_content_cache_miss, delta);
            },
            Counter::BlockExistenceCacheHit => {
                self.block_existence_cache_hit = add_count(self.block_existence_cache_hit, delta);
            },
            Counter::BlockExistenceCacheMiss => {
                self.block_existence_cache_miss = add_count(self.block_existence_cache_miss, delta);
            },
            Counter::IndexReads => {
                self.index_reads = add_count(self.index_reads, delta);
            },
            Counter::IndexReadCompressedBytes => {
                self.index_read_compressed_bytes = add_count(self.index_read_compressed_bytes, delta);
            },
            Counter::IndexWrites => {
                self.index_writes = add_count(self.index_writes, delta);
            },
            Counter::IndexWriteCompressedBytes => {
                self.index_write_compressed_bytes = add_count(self.index_write_compressed_bytes, delta);
            },
        }
    }
}

/// Collects counts and errors in memory.
#[derive(Debug)]
pub struct CollectMonitor {
    counts: Counts,
    errors: Vec<Error>,
}

impl CollectMonitor {
    /// What the counters stand at.
    pub closed spec fn counts(&self) -> Counts {
        self.counts
    }

    /// What a counter stands at.
    pub open spec fn value(&self, counter: Counter) -> usize {
        self.counts().value(counter)
    }

    /// The errors reported, in the order in which they came.
    pub closed spec fn reported(&self) -> Seq<Error> {
        self.errors@
    }

    /// A monitor that has seen nothing.
    pub fn new() -> (r: CollectMonitor)
        ensures
            forall|c: Counter| r.value(c) == 0,
            r.counts() == Counts::zeros(),
            r.reported().len() == 0,
    {
        CollectMonitor { counts: Counts::zero(), errors: Vec::new() }
    }

    /// Adds `delta` to a counter.
    pub fn count(&mut self, counter: Counter, delta: usize)
        ensures
            final(self).counts() == old(self).counts().plus(counter, delta),
            final(self).reported() == old(self).reported(),
    {
        self.counts.count(counter, delta);
    }

    /// What a counter stands at.
    pub fn get_counter(&self, counter: Counter) -> (r: usize)
        ensures
            r == self.value(counter),
    {
        self.counts.get(counter)
    }

    /// Takes note of an error that does not end the operation.
    pub fn error(&mut self, error: Error)
        ensures
            final(self).reported() == old(self).reported().push(error),
            final(self).counts() == old(self).counts(),
    {
        self.errors.push(error);
    }

    /// The number of errors reported.
    pub fn error_count(&self) -> (r: usize)
        ensures
            r == self.reported().len(),
    {
        self.errors.len()
    }

    /// The errors reported, in the order in which they came.
    pub fn errors(&self) -> (r: &Vec<Error>)
        ensures
            r@ == self.reported(),
    {
        &self.errors
    }
}

} // verus!
