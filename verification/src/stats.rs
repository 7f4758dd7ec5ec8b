//! Figures that tell what an operation did.

use vstd::prelude::*;
use crate::monitor::add_count;
use crate::monitor::counted;

verus! {

/// The sum of two numbers of bytes, as the figures hold it: they wrap round
/// at the highest number.
pub open spec fn summed(total: u64, delta: u64) -> u64 {
    if total + delta > u64::MAX {
        (total + delta - u64::MAX - 1) as u64
    } else {
        (total + delta) as u64
    }
}

/// Adds to a number of bytes as the figures do.
pub fn add_bytes(total: u64, delta: u64) -> (r: u64)
    ensures
        r == summed(total, delta),
{
    total.wrapping_add(delta)
}

/// What a backup did to the blocks of an archive.
#[derive(Clone, Copy, Debug, Default, PartialEq, Eq, Structural)]
pub struct BackupStats {
    /// Blocks that were there already.
    pub deduplicated_blocks: usize,
    /// Bytes that were in blocks that were there already.
    pub deduplicated_bytes: u64,
    /// Blocks that were written.
    pub written_blocks: usize,
    /// Bytes in the blocks that were written, before compression.
    pub uncompressed_bytes: u64,
    /// Bytes in the blocks that were written, after compression.
    pub compressed_bytes: u64,
}

impl BackupStats {
    /// The figures of a backup that did nothing.
    pub open spec fn zeros() -> BackupStats {
        BackupStats {
            deduplicated_blocks: 0,
            deduplicated_bytes: 0,
            written_blocks: 0,
            uncompressed_bytes: 0,
            compressed_bytes: 0,
        }
    }

    /// The figures after one more block of `len` bytes was found to be there.
    pub open spec fn deduplicated(self, len: u64) -> BackupStats {
        BackupStats {
            deduplicated_blocks: counted(self.deduplicated_blocks, 1),
            deduplicated_bytes: summed(self.deduplicated_bytes, len),
            ..self
        }
    }

    /// The figures after one more block of `len` bytes was written in
    /// `compressed` bytes.
    pub open spec fn written(self, len: u64, compressed: u64) -> BackupStats {
        BackupStats {
            written_blocks: counted(self.written_blocks, 1),
            uncompressed_bytes: summed(self.uncompressed_bytes, len),
            compressed_bytes: summed(self.compressed_bytes, compressed),
            ..self
        }
    }

    /// The figures of a backup that did nothing.
    pub fn new() -> (r: BackupStats)
        ensures
            r == BackupStats::zeros(),
    {
        BackupStats {
            deduplicated_blocks: 0,
            deduplicated_bytes: 0,
            written_blocks: 0,
            uncompressed_bytes: 0,
            compressed_bytes: 0,
        }
    }

    /// Counts one more block of `len` bytes that was there already.
    pub fn count_deduplicated(&mut self, len: u64)
        ensures
            *final(self) == old(self).deduplicated(len),
    {
        self.deduplicated_blocks = add_count(self.deduplicated_blocks, 1);
        self.deduplicated_bytes = add_bytes(self.deduplicated_bytes, len);
    }

    /// Counts one more block of `len` bytes written in `compressed` bytes.
    pub fn count_written(&mut self, len: u64, compressed: u64)
        ensures
            *final(self) == old(self).written(len, compressed),
    {
        self.written_blocks = add_count(self.written_blocks, 1);
        self.uncompressed_bytes = add_bytes(self.uncompressed_bytes, len);
        self.compressed_bytes = add_bytes(self.compressed_bytes, compressed);
    }
}

/// What was read from a block directory since it was opened.
#[derive(Clone, Copy, Debug, Default, PartialEq, Eq, Structural)]
pub struct BlockDirStats {
    /// Blocks read from storage.
    pub read_blocks: usize,
    /// Bytes read from storage.
    pub read_block_compressed_bytes: usize,
    /// Bytes that the blocks read from storage held.
    pub read_block_uncompressed_bytes: usize,
    /// Questions that were answered from memory.
    pub cache_hit: usize,
}

impl BlockDirStats {
    /// The figures of a block directory that was just opened.
    pub open spec fn zeros() -> BlockDirStats {
        BlockDirStats {
            read_blocks: 0,
            read_block_compressed_bytes: 0,
            read_block_uncompressed_bytes: 0,
            cache_hit: 0,
        }
    }

    /// The figures after one more answer from memory.
    pub open spec fn hit(self) -> BlockDirStats {
        BlockDirStats { cache_hit: counted(self.cache_hit, 1), ..self }
    }

    /// The figures after one more block was read from storage, `compressed`
    /// bytes that held `len` bytes.
    pub open spec fn read(self, compressed: usize, len: usize) -> BlockDirStats {
        BlockDirStats {
            read_blocks: counted(self.read_blocks, 1),
            read_block_compressed_bytes: counted(self.read_block_compressed_bytes, compressed),
            read_block_uncompressed_bytes: counted(self.read_block_uncompressed_bytes, len),
            ..self
        }
    }

    /// The figures of a block directory that was just opened.
    pub fn new() -> (r: BlockDirStats)
        ensures
            r == BlockDirStats::zeros(),
    {
        BlockDirStats {
            read_blocks: 0,
            read_block_compressed_bytes: 0,
            read_block_uncompressed_bytes: 0,
            cache_hit: 0,
        }
    }

    /// Counts one more answer from memory.
    pub fn count_hit(&mut self)
        ensures
            *final(self) == old(self).hit(),
    {
        self.cache_hit = add_count(self.cache_hit, 1);
    }

    /// Counts one more block read from storage.
    pub fn count_read(&mut self, compressed: usize, len: usize)
        ensures
            *final(self) == old(self).read(compressed, len),
    {
        self.read_blocks = add_count(self.read_blocks, 1);
        self.read_block_compressed_bytes = add_count(self.read_block_compressed_bytes, compressed);
        self.read_block_uncompressed_bytes = add_count(self.read_block_uncompressed_bytes, len);
    }
}

} // verus!
