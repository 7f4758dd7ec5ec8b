//! Quick lookup of which blocks an archive holds, for deduplication.

use vstd::prelude::*;
use crate::blockdir::BlockDir;
use crate::blockhash::BlockHash;
use crate::blockset::BlockSet;
use crate::errors::Error;
use crate::monitor::CollectMonitor;
use crate::transport::Transport;
use crate::transport::Tree;

verus! {

/// Quick lookup index for what blocks the block directory of an archive
/// holds. Such an index is used to deduplicate blocks.
///
/// `inv` is spoken of in contracts only and is never run.
pub trait BlockIndex {
    /// The index is in order within.
    spec fn inv(&self) -> bool;

    /// True if the index takes the block to be there.
    fn contains_block(&self, hash: &BlockHash) -> (r: Result<bool, Error>)
        requires
            self.inv(),
    ;

    /// Tells the index that the block was written.
    fn register_block(&mut self, hash: &BlockHash)
        requires
            old(self).inv(),
        ensures
            final(self).inv(),
    ;

    /// Tells the index that the block was deleted.
    fn delete_block(&mut self, hash: &BlockHash)
        requires
            old(self).inv(),
        ensures
            final(self).inv(),
    ;
}

/// An index that looks at the storage every time it is asked.
pub struct FsBlockIndex<T: Transport> {
    transport: T,
}

impl<T: Transport> FsBlockIndex<T> {
    /// What the storage holds.
    pub closed spec fn tree(&self) -> Tree {
        self.transport.tree()
    }

    /// An index over the block directory that `transport` is rooted at.
    pub fn new(transport: T) -> (r: Self)
        requires
            transport.inv(),
        ensures
            r.inv(),
            r.tree() == transport.tree(),
    {
        Self { transport }
    }

    /// Gives the storage back.
    pub fn into_transport(self) -> (r: T)
        ensures
            r.tree() == self.tree(),
            self.inv() ==> r.inv(),
    {
        self.transport
    }
}

impl<T: Transport> BlockIndex for FsBlockIndex<T> {
    closed spec fn inv(&self) -> bool {
        self.transport.inv()
    }

    /// True if the file of the block is there.
    fn contains_block(&self, hash: &BlockHash) -> (r: Result<bool, Error>)
        ensures
            match r {
                Ok(found) => found == self.tree().has_file(crate::blockdir::block_path(hash@)),
                Err(e) => e is Transport,
            },
            T::steady() ==> r is Ok,
    {
        let relpath = crate::blockdir::block_relpath(hash);
        match crate::transport::is_file(&self.transport, relpath.as_str()) {
            Ok(found) => Ok(found),
            Err(source) => Err(Error::Transport { source }),
        }
    }

    /// Nothing to do: once the block is written, `contains_block` finds it.
    fn register_block(&mut self, _hash: &BlockHash)
        ensures
            final(self).tree() == old(self).tree(),
    {
    }

    /// Nothing to do: once the block is deleted from the storage,
    /// `contains_block` finds it no more.
    fn delete_block(&mut self, _hash: &BlockHash)
        ensures
            final(self).tree() == old(self).tree(),
    {
    }
}

/// An index that lists the blocks once, and answers from that list.
pub struct CachedBlockIndex<T: Transport> {
    transport: T,
    cache: BlockSet,
}

impl<T: Transport> CachedBlockIndex<T> {
    /// What the storage holds.
    pub closed spec fn tree(&self) -> Tree {
        self.transport.tree()
    }

    /// The blocks that the index takes to be there.
    pub closed spec fn known(&self) -> Set<Seq<u8>> {
        self.cache@
    }

    /// Lists the blocks of the block directory that `transport` is rooted
    /// at, and makes an index of them. Subdirectories that cannot be listed
    /// are reported to `monitor`: the index knows of every file that is named
    /// like a block, but those in the subdirectories reported. On a steady
    /// transport nothing is reported.
    pub fn load(transport: T, monitor: &mut CollectMonitor) -> (r: Result<Self, Error>)
        requires
            transport.inv(),
        ensures
            final(monitor).counts() == old(monitor).counts(),
            crate::blockdir::then_errors(old(monitor).reported(), final(monitor).reported()),
            T::steady() ==> r is Ok && final(monitor).reported() == old(monitor).reported(),
            match r {
                Ok(index) => {
                    &&& index.inv()
                    &&& index.tree() == transport.tree()
                    &&& crate::blockdir::all_listing_failures(
                        transport.tree(),
                        final(monitor).reported().skip(old(monitor).reported().len() as int),
                    )
                    &&& forall|h: Seq<u8>| #[trigger]
                        index.known().contains(h) ==> crate::blockdir::is_block_file(
                            transport.tree(),
                            crate::blockhash::hex_text(h),
                        )
                    &&& forall|dir: Seq<char>, h: Seq<u8>|
                        h.len() == crate::blockhash::BLAKE_HASH_SIZE_BYTES
                            && #[trigger] crate::blockdir::block_file_in(
                            transport.tree(),
                            dir,
                            crate::blockhash::hex_text(h),
                        ) ==> index.known().contains(h) || crate::blockdir::reports_listing(
                            final(monitor).reported().skip(old(monitor).reported().len() as int),
                            dir,
                        )
                    &&& final(monitor).reported().len() == old(monitor).reported().len()
                        ==> forall|h: Seq<u8>|
                        h.len() == crate::blockhash::BLAKE_HASH_SIZE_BYTES
                            && #[trigger] crate::blockdir::is_block_file(
                            transport.tree(),
                            crate::blockhash::hex_text(h),
                        ) ==> index.known().contains(h)
                },
                Err(e) => e is Transport,
            },
    {
        let block_dir = BlockDir::open(transport);
        let names = match block_dir.blocks(monitor) {
            Ok(names) => names,
            Err(e) => {
                return Err(e);
            },
        };
        let ghost listed = names@;
        let ghost tree = block_dir.tree();
        let cache = BlockSet::from_hashes(names);
        let index = CachedBlockIndex { transport: block_dir.into_transport(), cache };
        proof {
            assert forall|h: Seq<u8>| #[trigger]
                index.known().contains(h) implies crate::blockdir::is_block_file(
                tree,
                crate::blockhash::hex_text(h),
            ) by {
                let k = choose|k: int| 0 <= k < listed.len() && (#[trigger] listed[k])@ == h;
                assert(crate::blockdir::is_block_file(tree, listed[k].name()));
            }
            let fresh = monitor.reported().skip(old(monitor).reported().len() as int);
            assert forall|dir: Seq<char>, h: Seq<u8>|
                h.len() == crate::blockhash::BLAKE_HASH_SIZE_BYTES
                    && #[trigger] crate::blockdir::block_file_in(
                    tree,
                    dir,
                    crate::blockhash::hex_text(h),
                ) implies index.known().contains(h) || crate::blockdir::reports_listing(
                fresh,
                dir,
            ) by {
                let name = crate::blockhash::hex_text(h);
                if crate::blockdir::names_hash(listed, name) {
                    let k = choose|k: int|
                        0 <= k < listed.len() && (#[trigger] listed[k]).name() == name;
                    crate::blockhash::lemma_hex_text_injective(listed[k]@, h);
                }
            }
            if monitor.reported().len() == old(monitor).reported().len() {
                assert forall|h: Seq<u8>|
                    h.len() == crate::blockhash::BLAKE_HASH_SIZE_BYTES
                        && #[trigger] crate::blockdir::is_block_file(
                        tree,
                        crate::blockhash::hex_text(h),
                    ) implies index.known().contains(h) by {
                    let name = crate::blockhash::hex_text(h);
                    assert(crate::blockdir::names_hash(listed, name));
                    let k = choose|k: int|
                        0 <= k < listed.len() && (#[trigger] listed[k]).name() == name;
                    crate::blockhash::lemma_hex_text_injective(listed[k]@, h);
                }
            }
        }
        Ok(index)
    }

    /// Gives the storage back.
    pub fn into_transport(self) -> (r: T)
        ensures
            r.tree() == self.tree(),
            self.inv() ==> r.inv(),
    {
        self.transport
    }
}

impl<T: Transport> BlockIndex for CachedBlockIndex<T> {
    closed spec fn inv(&self) -> bool {
        self.transport.inv() && self.cache.wf()
    }

    /// True if the block was listed or registered, and not deleted since.
    fn contains_block(&self, hash: &BlockHash) -> (r: Result<bool, Error>)
        ensures
            r == Ok::<bool, Error>(self.known().contains(hash@)),
    {
        Ok(self.cache.contains(hash))
    }

    fn register_block(&mut self, hash: &BlockHash)
        ensures
            final(self).known() == old(self).known().insert(hash@),
            final(self).tree() == old(self).tree(),
    {
        self.cache.insert(hash.clone());
    }

    fn delete_block(&mut self, hash: &BlockHash)
        ensures
            final(self).known() == old(self).known().remove(hash@),
            final(self).tree() == old(self).tree(),
    {
        self.cache.remove(hash);
    }
}

} // verus!
