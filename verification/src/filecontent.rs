//! The content of a file as it is stored: cut into blocks, each of which is
//! kept in the block directory under its hash, and told by one address for
//! each block.

use vstd::prelude::*;
use crate::blockdir::BlockDir;
use crate::blockhash::BlockHash;
use crate::errors::Error;
use crate::index::Address;
use crate::index::AddressView;
use crate::monitor::CollectMonitor;
use crate::stats::BackupStats;
use crate::transport::Transport;
use crate::transport::Tree;

verus! {

/// The most bytes that are put into one block: 20 MiB.
pub const MAX_BLOCK_SIZE: usize = 20_971_520;

/// The bytes cut into pieces of `max` bytes, but for the last, which is what
/// is left. No bytes give no pieces.
pub open spec fn chunks_of(content: Seq<u8>, max: nat) -> Seq<Seq<u8>>
    decreases content.len(),
{
    if content.len() == 0 || max == 0 {
        Seq::empty()
    } else if content.len() <= max {
        seq![content]
    } else {
        seq![content.take(max as int)] + chunks_of(content.skip(max as int), max)
    }
}

/// The address of a block that holds just `chunk`.
pub open spec fn address_of(chunk: Seq<u8>) -> AddressView {
    AddressView { hash: crate::blockhash::blake2b_digest(chunk), start: 0, len: chunk.len() as u64 }
}

/// The addresses of blocks that hold the pieces, one each.
pub open spec fn addresses_of(chunks: Seq<Seq<u8>>) -> Seq<AddressView> {
    Seq::new(chunks.len(), |i: int| address_of(chunks[i]))
}

/// The pieces put together again.
pub open spec fn joined(chunks: Seq<Seq<u8>>) -> Seq<u8>
    decreases chunks.len(),
{
    if chunks.len() == 0 {
        Seq::empty()
    } else {
        joined(chunks.drop_last()) + chunks.last()
    }
}

/// What the addresses point to, in order, if every one of them points to
/// something.
pub open spec fn read_back(tree: Tree, addrs: Seq<AddressView>) -> Option<Seq<u8>>
    decreases addrs.len(),
{
    if addrs.len() == 0 {
        Some(Seq::empty())
    } else {
        match (
            read_back(tree, addrs.drop_last()),
            crate::blockdir::address_content(tree, addrs.last()),
        ) {
            (Some(front), Some(last)) => Some(front + last),
            _ => None,
        }
    }
}

/// Every block that the addresses point to is there.
pub open spec fn all_present(tree: Tree, addrs: Seq<AddressView>) -> bool {
    forall|i: int| 0 <= i < addrs.len() ==> crate::blockdir::block_present(tree, (#[trigger] addrs[i]).hash)
}

/// The pieces of some bytes are those bytes, each piece is no longer than
/// asked, and none is empty.
pub proof fn lemma_chunks(content: Seq<u8>, max: nat)
    requires
        max > 0,
    ensures
        joined(chunks_of(content, max)) == content,
        forall|i: int|
            0 <= i < chunks_of(content, max).len() ==> 0 < (#[trigger] chunks_of(content, max)[i]).len()
                <= max,
    decreases content.len(),
{
    let chunks = chunks_of(content, max);
    if content.len() == 0 {
        assert(content =~= Seq::<u8>::empty());
    } else if content.len() <= max {
        assert(chunks.drop_last() =~= Seq::<Seq<u8>>::empty());
        assert(chunks.last() == content);
        assert(joined(chunks.drop_last()) =~= Seq::<u8>::empty());
        assert(joined(chunks) =~= content);
    } else {
        let rest = chunks_of(content.skip(max as int), max);
        lemma_chunks(content.skip(max as int), max);
        lemma_joined_first(content.take(max as int), rest);
        assert(content.take(max as int) + content.skip(max as int) =~= content);
        assert forall|i: int| 0 <= i < chunks.len() implies 0 < (#[trigger] chunks[i]).len()
            <= max by {
            if i > 0 {
                assert(chunks[i] == rest[i - 1]);
            }
        }
    }
}

/// A piece before other pieces comes first when they are put together.
pub proof fn lemma_joined_first(first: Seq<u8>, rest: Seq<Seq<u8>>)
    ensures
        joined(seq![first] + rest) == first + joined(rest),
    decreases rest.len(),
{
    let all = seq![first] + rest;
    if rest.len() == 0 {
        assert(all.drop_last() =~= Seq::<Seq<u8>>::empty());
        assert(all.last() == first);
        assert(joined(all.drop_last()) =~= Seq::<u8>::empty());
        assert(joined(rest) =~= Seq::<u8>::empty());
        assert(joined(all) =~= first + joined(rest));
    } else {
        lemma_joined_first(first, rest.drop_last());
        assert(all.drop_last() =~= seq![first] + rest.drop_last());
        assert(all.last() == rest.last());
        assert(joined(all) =~= first + joined(rest));
    }
}

/// The addresses of the pieces of some bytes point to as many bytes as there
/// are.
pub proof fn lemma_addresses_len(chunks: Seq<Seq<u8>>)
    requires
        forall|i: int| 0 <= i < chunks.len() ==> (#[trigger] chunks[i]).len() <= u64::MAX,
    ensures
        crate::index::addrs_len(addresses_of(chunks)) == joined(chunks).len(),
    decreases chunks.len(),
{
    let addrs = addresses_of(chunks);
    if chunks.len() > 0 {
        assert(addrs.drop_last() =~= addresses_of(chunks.drop_last()));
        lemma_addresses_len(chunks.drop_last());
        assert(addrs.last() == address_of(chunks[chunks.len() - 1]));
    }
}

/// Two different contents have one hash.
pub open spec fn collide(a: Seq<u8>, b: Seq<u8>) -> bool {
    a != b && crate::blockhash::blake2b_digest(a) == crate::blockhash::blake2b_digest(b)
}

/// None of the pieces has the hash of another content that a sound block of
/// the tree holds under that hash.
pub open spec fn no_collision(tree: Tree, chunks: Seq<Seq<u8>>) -> bool {
    forall|i: int|
        0 <= i < chunks.len() ==> (crate::blockdir::block_content(
            tree,
            crate::blockhash::blake2b_digest(#[trigger] chunks[i]),
        ) matches Some(held) ==> !collide(held, chunks[i]))
}

/// What is read back from the addresses of the pieces of some bytes are
/// those bytes, unless the hash of a piece is also that of something else
/// that is stored.
pub proof fn lemma_round_trip(tree: Tree, chunks: Seq<Seq<u8>>)
    requires
        forall|i: int| 0 <= i < chunks.len() ==> (#[trigger] chunks[i]).len() <= u64::MAX,
        no_collision(tree, chunks),
    ensures
        read_back(tree, addresses_of(chunks)) matches Some(bytes) ==> bytes == joined(chunks),
    decreases chunks.len(),
{
    let addrs = addresses_of(chunks);
    if chunks.len() > 0 {
        assert(addrs.drop_last() =~= addresses_of(chunks.drop_last()));
        lemma_round_trip(tree, chunks.drop_last());
        let last = chunks[chunks.len() - 1];
        assert(addrs.last() == address_of(last));
        assert(no_collision(tree, chunks.drop_last())) by {
            assert forall|i: int| 0 <= i < chunks.drop_last().len() implies (
            crate::blockdir::block_content(
                tree,
                crate::blockhash::blake2b_digest(#[trigger] chunks.drop_last()[i]),
            ) matches Some(held) ==> !collide(held, chunks.drop_last()[i])) by {
                assert(chunks.drop_last()[i] == chunks[i]);
            }
        }
        if crate::blockdir::address_content(tree, addrs.last()) is Some {
            assert(last.subrange(0, last.len() as int) =~= last);
        }
    }
}

/// The block of every piece is sound.
pub open spec fn all_sound(tree: Tree, chunks: Seq<Seq<u8>>) -> bool {
    forall|i: int|
        0 <= i < chunks.len() ==> crate::blockdir::block_content(
            tree,
            crate::blockhash::blake2b_digest(#[trigger] chunks[i]),
        ) is Some
}

/// The block of every piece that has one is sound.
pub open spec fn present_sound(tree: Tree, chunks: Seq<Seq<u8>>) -> bool {
    forall|i: int|
        0 <= i < chunks.len() && crate::blockdir::block_present(
            tree,
            crate::blockhash::blake2b_digest(#[trigger] chunks[i]),
        ) ==> crate::blockdir::block_content(tree, crate::blockhash::blake2b_digest(chunks[i]))
            is Some
}

/// Where the block of every piece is sound, what is read back from the
/// addresses of the pieces are the pieces put together, unless the hash of a
/// piece is also that of something else that is stored.
pub proof fn lemma_sound_reads_back(tree: Tree, chunks: Seq<Seq<u8>>)
    requires
        forall|i: int| 0 <= i < chunks.len() ==> (#[trigger] chunks[i]).len() <= u64::MAX,
        no_collision(tree, chunks),
        all_sound(tree, chunks),
    ensures
        read_back(tree, addresses_of(chunks)) == Some(joined(chunks)),
    decreases chunks.len(),
{
    let addrs = addresses_of(chunks);
    if chunks.len() > 0 {
        let front = chunks.drop_last();
        assert(addrs.drop_last() =~= addresses_of(front));
        assert forall|i: int| 0 <= i < front.len() implies (#[trigger] front[i]).len()
            <= u64::MAX by {
            assert(front[i] == chunks[i]);
        }
        assert(no_collision(tree, front)) by {
            assert forall|i: int| 0 <= i < front.len() implies (crate::blockdir::block_content(
                tree,
                crate::blockhash::blake2b_digest(#[trigger] front[i]),
            ) matches Some(held) ==> !collide(held, front[i])) by {
                assert(front[i] == chunks[i]);
            }
        }
        assert(all_sound(tree, front)) by {
            assert forall|i: int| 0 <= i < front.len() implies crate::blockdir::block_content(
                tree,
                crate::blockhash::blake2b_digest(#[trigger] front[i]),
            ) is Some by {
                assert(front[i] == chunks[i]);
            }
        }
        lemma_sound_reads_back(tree, front);
        let last = chunks[chunks.len() - 1];
        assert(addrs.last() == address_of(last));
        let held = crate::blockdir::block_content(
            tree,
            crate::blockhash::blake2b_digest(last),
        )->0;
        assert(!collide(held, last));
        assert(held == last);
        assert(last.subrange(0, last.len() as int) =~= last);
    } else {
        assert(joined(chunks) =~= Seq::<u8>::empty());
    }
}

/// The block `h` was there before the pieces were stored, or it is the block
/// of one of the pieces.
pub open spec fn stored_before(before: Tree, front: Seq<Seq<u8>>, h: Seq<u8>) -> bool {
    crate::blockdir::block_present(before, h) || exists|j: int|
        0 <= j < front.len() && crate::blockhash::blake2b_digest(#[trigger] front[j]) == h
}

/// The figures after the pieces were stored one after the other, from `stats`
/// on, when `before` held the blocks before and `after` holds them after: a
/// piece whose block was there, or is that of an earlier piece, counts as
/// deduplicated, and any other as written, with the bytes that its file
/// takes.
pub open spec fn stored_figures(
    before: Tree,
    after: Tree,
    stats: BackupStats,
    chunks: Seq<Seq<u8>>,
) -> BackupStats
    decreases chunks.len(),
{
    if chunks.len() == 0 {
        stats
    } else {
        let front = chunks.drop_last();
        let so_far = stored_figures(before, after, stats, front);
        let h = crate::blockhash::blake2b_digest(chunks.last());
        if stored_before(before, front, h) {
            so_far.deduplicated(chunks.last().len() as u64)
        } else {
            so_far.written(
                chunks.last().len() as u64,
                after.files[crate::blockdir::block_path(h)].len() as u64,
            )
        }
    }
}

/// The paths of the files of the blocks of the pieces.
pub open spec fn chunk_paths(chunks: Seq<Seq<u8>>) -> Set<Seq<char>> {
    Set::new(
        |p: Seq<char>|
            exists|j: int|
                0 <= j < chunks.len() && p == crate::blockdir::block_path(
                    crate::blockhash::blake2b_digest(#[trigger] chunks[j]),
                ),
    )
}

/// The figures go by the files of the blocks of the pieces alone.
pub proof fn lemma_figures_same(
    before: Tree,
    one: Tree,
    other: Tree,
    stats: BackupStats,
    chunks: Seq<Seq<u8>>,
)
    requires
        forall|j: int|
            0 <= j < chunks.len() ==> one.files[crate::blockdir::block_path(
                crate::blockhash::blake2b_digest(#[trigger] chunks[j]),
            )] == other.files[crate::blockdir::block_path(
                crate::blockhash::blake2b_digest(chunks[j]),
            )],
    ensures
        stored_figures(before, one, stats, chunks) == stored_figures(before, other, stats, chunks),
    decreases chunks.len(),
{
    if chunks.len() > 0 {
        let front = chunks.drop_last();
        assert forall|j: int| 0 <= j < front.len() implies one.files[crate::blockdir::block_path(
            crate::blockhash::blake2b_digest(#[trigger] front[j]),
        )] == other.files[crate::blockdir::block_path(
            crate::blockhash::blake2b_digest(front[j]),
        )] by {
            assert(front[j] == chunks[j]);
        }
        lemma_figures_same(before, one, other, stats, front);
        assert(chunks.last() == chunks[chunks.len() - 1]);
    }
}

/// Stores the content of a file: cuts it into blocks of up to
/// [`MAX_BLOCK_SIZE`] bytes, stores each block unless it is there already,
/// and returns the addresses of the blocks in order, with the hash of the
/// whole content.
///
/// The only files that the storage gains are those of the blocks of the
/// pieces, and the figures count each piece once, as deduplicated or as
/// written. On a steady transport nothing fails.
pub fn store_file_content<T: Transport>(
    block_dir: &mut BlockDir<T>,
    content: &[u8],
    stats: &mut BackupStats,
    monitor: &mut CollectMonitor,
) -> (r: Result<(Vec<Address>, BlockHash), Error>)
    requires
        old(block_dir).wf(),
    ensures
        final(block_dir).wf(),
        final(monitor).reported() == old(monitor).reported(),
        forall|h: Seq<u8>|
            crate::blockdir::block_present(old(block_dir).tree(), h)
                ==> crate::blockdir::block_present(final(block_dir).tree(), h),
        final(block_dir).tree().files.dom().subset_of(
            old(block_dir).tree().files.dom().union(
                chunk_paths(chunks_of(content@, MAX_BLOCK_SIZE as nat)),
            ),
        ),
        T::steady() ==> r is Ok,
        match r {
            Ok((addrs, file_hash)) => {
                &&& addrs.deep_view() == addresses_of(chunks_of(content@, MAX_BLOCK_SIZE as nat))
                &&& crate::index::addrs_len(addrs.deep_view()) == content@.len()
                &&& all_present(final(block_dir).tree(), addrs.deep_view())
                &&& file_hash@ == crate::blockhash::blake2b_digest(content@)
                &&& *final(stats) == stored_figures(
                    old(block_dir).tree(),
                    final(block_dir).tree(),
                    *old(stats),
                    chunks_of(content@, MAX_BLOCK_SIZE as nat),
                )
                &&& present_sound(
                    old(block_dir).tree(),
                    chunks_of(content@, MAX_BLOCK_SIZE as nat),
                ) ==> all_sound(
                    final(block_dir).tree(),
                    chunks_of(content@, MAX_BLOCK_SIZE as nat),
                )
                &&& present_sound(
                    old(block_dir).tree(),
                    chunks_of(content@, MAX_BLOCK_SIZE as nat),
                ) && no_collision(
                    final(block_dir).tree(),
                    chunks_of(content@, MAX_BLOCK_SIZE as nat),
                ) ==> read_back(final(block_dir).tree(), addrs.deep_view()) == Some(content@)
            },
            Err(e) => e is Transport || e is WriteBlock || e is Compression,
        },
{
    let ghost chunks = chunks_of(content@, MAX_BLOCK_SIZE as nat);
    let ghost before = block_dir.tree();
    let mut addrs: Vec<Address> = Vec::new();
    let mut start: usize = 0;
    proof {
        lemma_chunks(content@, MAX_BLOCK_SIZE as nat);
        assert(addrs.deep_view() =~= addresses_of(Seq::<Seq<u8>>::empty()));
        assert(content@.skip(0) =~= content@);
    }
    while start < content.len()
        invariant
            start <= content.len(),
            block_dir.wf(),
            monitor.reported() == old(monitor).reported(),
            before == old(block_dir).tree(),
            forall|h: Seq<u8>|
                crate::blockdir::block_present(before, h) ==> crate::blockdir::block_present(
                    block_dir.tree(),
                    h,
                ),
            chunks == chunks_of(content@, MAX_BLOCK_SIZE as nat),
            addrs@.len() <= chunks.len(),
            chunks == chunks.take(addrs@.len() as int) + chunks_of(
                content@.skip(start as int),
                MAX_BLOCK_SIZE as nat,
            ),
            addrs.deep_view() == addresses_of(chunks.take(addrs@.len() as int)),
            all_present(block_dir.tree(), addrs.deep_view()),
            forall|j: int|
                0 <= j < addrs@.len() ==> crate::blockhash::blake2b_digest(
                    #[trigger] chunks[j],
                ).len() == crate::blockhash::BLAKE_HASH_SIZE_BYTES,
            forall|h: Seq<u8>|
                h.len() == crate::blockhash::BLAKE_HASH_SIZE_BYTES ==> (
                #[trigger] crate::blockdir::block_present(block_dir.tree(), h) <==> stored_before(
                    before,
                    chunks.take(addrs@.len() as int),
                    h,
                )),
            *stats == stored_figures(
                before,
                block_dir.tree(),
                *old(stats),
                chunks.take(addrs@.len() as int),
            ),
            block_dir.tree().files.dom().subset_of(before.files.dom().union(chunk_paths(chunks))),
            forall|x: Seq<u8>|
                x.len() == crate::blockhash::BLAKE_HASH_SIZE_BYTES
                    && #[trigger] crate::blockdir::block_present(before, x)
                    ==> crate::blockdir::block_content(block_dir.tree(), x)
                    == crate::blockdir::block_content(before, x),
            present_sound(before, chunks) ==> all_sound(
                block_dir.tree(),
                chunks.take(addrs@.len() as int),
            ),
        decreases content.len() - start,
    {
        let left = content.len() - start;
        let len = if left > MAX_BLOCK_SIZE {
            MAX_BLOCK_SIZE
        } else {
            left
        };
        let chunk = vstd::slice::slice_subrange(content, start, start + len);
        let ghost rest = content@.skip(start as int);
        let ghost done = addrs@.len() as int;
        let ghost held = addrs.deep_view();
        let ghost tree_before = block_dir.tree();
        proof {
            assert(chunk@ =~= rest.take(len as int));
            assert(rest.skip(len as int) =~= content@.skip(start + len));
            if left <= MAX_BLOCK_SIZE {
                assert(rest.take(len as int) =~= rest);
                assert(chunks_of(rest, MAX_BLOCK_SIZE as nat) =~= seq![chunk@]);
                assert(chunks_of(content@.skip(start + len), MAX_BLOCK_SIZE as nat)
                    =~= Seq::<Seq<u8>>::empty());
            }
            assert(chunks_of(rest, MAX_BLOCK_SIZE as nat) =~= seq![chunk@] + chunks_of(
                content@.skip(start + len),
                MAX_BLOCK_SIZE as nat,
            ));
            assert(chunks[done] == chunk@);
            assert(chunks.take(done + 1) =~= chunks.take(done).push(chunk@));
            assert(chunks =~= chunks.take(done + 1) + chunks_of(
                content@.skip(start + len),
                MAX_BLOCK_SIZE as nat,
            ));
        }
        let ghost stats_before = *stats;
        let hash = match block_dir.store_or_deduplicate(chunk, stats, monitor) {
            Ok(hash) => hash,
            Err(e) => {
                return Err(e);
            },
        };
        let hash_len: usize = hash.len();
        proof {
            assert(hash@.len() == hash_len);
            lemma_stays_present(tree_before, block_dir.tree(), hash@);
            let h = hash@;
            let taken = chunks.take(done);
            let more = chunks.take(done + 1);
            let was = crate::blockdir::block_present(tree_before, h);
            assert(more.drop_last() =~= taken);
            assert(more.last() == chunk@);
            assert(chunk_paths(chunks).contains(crate::blockdir::block_path(h)));
            if !was {
                crate::blockdir::lemma_other_blocks(tree_before, block_dir.tree(), h);
            }
            assert forall|x: Seq<u8>|
                x.len() == crate::blockhash::BLAKE_HASH_SIZE_BYTES implies (
            #[trigger] crate::blockdir::block_present(block_dir.tree(), x) <==> stored_before(
                before,
                more,
                x,
            )) by {
                if stored_before(before, more, x) && !crate::blockdir::block_present(before, x) {
                    let j = choose|j: int|
                        0 <= j < more.len() && crate::blockhash::blake2b_digest(
                            #[trigger] more[j],
                        ) == x;
                    if j < done {
                        assert(taken[j] == more[j]);
                        assert(stored_before(before, taken, x));
                    }
                }
                if stored_before(before, taken, x) && !crate::blockdir::block_present(before, x) {
                    let j = choose|j: int|
                        0 <= j < taken.len() && crate::blockhash::blake2b_digest(
                            #[trigger] taken[j],
                        ) == x;
                    assert(more[j] == taken[j]);
                }
                if x == h {
                    assert(crate::blockhash::blake2b_digest(more[done]) == x);
                }
            }
            assert forall|j: int| 0 <= j < taken.len() implies tree_before.files[crate::blockdir::block_path(
                crate::blockhash::blake2b_digest(#[trigger] taken[j]),
            )] == block_dir.tree().files[crate::blockdir::block_path(
                crate::blockhash::blake2b_digest(taken[j]),
            )] by {
                let d = crate::blockhash::blake2b_digest(taken[j]);
                assert(taken[j] == chunks[j]);
                if !was {
                    assert(stored_before(before, taken, d));
                    assert(crate::blockdir::block_present(tree_before, d));
                    if crate::blockdir::block_path(d) == crate::blockdir::block_path(h) {
                        crate::blockdir::lemma_block_path_injective(d, h);
                    }
                }
            }
            lemma_figures_same(before, tree_before, block_dir.tree(), *old(stats), taken);
            assert(stored_before(before, taken, h) == was);
            assert(*stats == stored_figures(before, block_dir.tree(), *old(stats), more));
            if present_sound(before, chunks) {
                assert forall|j: int| 0 <= j < more.len() implies crate::blockdir::block_content(
                    block_dir.tree(),
                    crate::blockhash::blake2b_digest(#[trigger] more[j]),
                ) is Some by {
                    let d = crate::blockhash::blake2b_digest(more[j]);
                    if j < done {
                        assert(more[j] == taken[j]);
                        assert(taken[j] == chunks[j]);
                        assert(crate::blockdir::block_content(tree_before, d) is Some);
                        assert(stored_before(before, taken, d));
                        assert(crate::blockdir::block_present(tree_before, d));
                    } else {
                        assert(more[j] == chunk@);
                        if was {
                            if crate::blockdir::block_present(before, h) {
                                assert(chunks[done] == chunk@);
                            } else {
                                let k = choose|k: int|
                                    0 <= k < taken.len() && crate::blockhash::blake2b_digest(
                                        #[trigger] taken[k],
                                    ) == h;
                                assert(crate::blockdir::block_content(
                                    tree_before,
                                    crate::blockhash::blake2b_digest(taken[k]),
                                ) is Some);
                            }
                        }
                    }
                }
            }
        }
        addrs.push(Address { hash, start: 0, len: len as u64 });
        proof {
            assert(addrs.deep_view() =~= held.push(address_of(chunk@)));
            assert(addrs.deep_view() =~= addresses_of(chunks.take(done + 1)));
            assert forall|i: int| 0 <= i < addrs.deep_view().len() implies crate::blockdir::block_present(
                block_dir.tree(),
                (#[trigger] addrs.deep_view()[i]).hash,
            ) by {
                if i < done {
                    assert(addrs.deep_view()[i] == held[i]);
                }
            }
        }
        start = start + len;
    }
    proof {
        assert(content@.skip(start as int) =~= Seq::<u8>::empty());
        assert(chunks =~= chunks.take(addrs@.len() as int));
        assert forall|i: int| 0 <= i < chunks.len() implies (#[trigger] chunks[i]).len()
            <= u64::MAX by {}
        lemma_addresses_len(chunks);
        if present_sound(before, chunks) && no_collision(block_dir.tree(), chunks) {
            lemma_sound_reads_back(block_dir.tree(), chunks);
        }
    }
    let file_hash = BlockHash::hash_bytes(content);
    Ok((addrs, file_hash))
}

/// A block that is there stays there when the file of a block is written.
pub proof fn lemma_stays_present(before: Tree, after: Tree, hash: Seq<u8>)
    requires
        after == before || (crate::blockdir::block_present(after, hash) && exists|
            dir: Seq<char>,
            stored: Seq<u8>,
        |
            after == #[trigger] before.with_dir(dir).with_file(
                crate::blockdir::block_path(hash),
                stored,
            )),
    ensures
        forall|h: Seq<u8>|
            crate::blockdir::block_present(before, h) ==> crate::blockdir::block_present(after, h),
{
}

/// What is read back of a file that was stored is the content of the file,
/// unless the hash of a piece of it is also that of something else that is
/// stored.
pub proof fn lemma_stored_file_reads_back(tree: Tree, content: Seq<u8>)
    requires
        no_collision(tree, chunks_of(content, MAX_BLOCK_SIZE as nat)),
    ensures
        read_back(
            tree,
            addresses_of(chunks_of(content, MAX_BLOCK_SIZE as nat)),
        ) matches Some(bytes) ==> bytes == content,
        crate::index::addrs_len(addresses_of(chunks_of(content, MAX_BLOCK_SIZE as nat)))
            == content.len(),
{
    let chunks = chunks_of(content, MAX_BLOCK_SIZE as nat);
    lemma_chunks(content, MAX_BLOCK_SIZE as nat);
    assert forall|i: int| 0 <= i < chunks.len() implies (#[trigger] chunks[i]).len() <= u64::MAX by {}
    lemma_round_trip(tree, chunks);
    lemma_addresses_len(chunks);
}

/// The error says that the storage failed to read the block of one of the
/// addresses, for another reason than that it is not there.
pub open spec fn read_failure(addrs: Seq<AddressView>, e: Error) -> bool {
    e matches Error::ReadBlock { hash: name, source } && source.kind
        != crate::transport::ErrorKind::NotFound && exists|i: int|
        0 <= i < addrs.len() && name@ == crate::blockhash::hex_text((#[trigger] addrs[i]).hash)
}

/// Reads the content of a file back: what each of the addresses points to,
/// in order.
pub fn read_file_content<T: Transport>(
    block_dir: &mut BlockDir<T>,
    addrs: &Vec<Address>,
    monitor: &mut CollectMonitor,
) -> (r: Result<Vec<u8>, Error>)
    requires
        old(block_dir).wf(),
    ensures
        final(block_dir).wf(),
        final(block_dir).tree() == old(block_dir).tree(),
        final(monitor).reported() == old(monitor).reported(),
        T::steady() ==> (r matches Err(e) ==> !(e is ReadBlock)),
        T::steady() ==> (r is Ok <==> read_back(old(block_dir).tree(), addrs.deep_view()) is Some),
        match r {
            Ok(bytes) => read_back(old(block_dir).tree(), addrs.deep_view()) == Some(bytes@),
            Err(e) => match e {
                Error::AddressTooLong { .. } | Error::BlockCorrupt { .. } | Error::Compression {
                    ..
                } | Error::BlockMissing { .. } => read_back(
                    old(block_dir).tree(),
                    addrs.deep_view(),
                ) is None,
                Error::ReadBlock { .. } => read_failure(addrs.deep_view(), e),
                _ => false,
            },
        },
{
    let ghost tree = block_dir.tree();
    let ghost views = addrs.deep_view();
    let mut out: Vec<u8> = Vec::new();
    let mut i: usize = 0;
    proof {
        assert(views.take(0) =~= Seq::<AddressView>::empty());
    }
    while i < addrs.len()
        invariant
            i <= addrs.len(),
            block_dir.wf(),
            block_dir.tree() == tree,
            tree == old(block_dir).tree(),
            monitor.reported() == old(monitor).reported(),
            views == addrs.deep_view(),
            read_back(tree, views.take(i as int)) == Some(out@),
        decreases addrs.len() - i,
    {
        proof {
            assert(views.take(i as int + 1).drop_last() =~= views.take(i as int));
            assert(views.take(i as int + 1).last() == addrs@[i as int]@);
        }
        let mut bytes = match block_dir.read_address(&addrs[i], monitor) {
            Ok(bytes) => bytes,
            Err(e) => {
                proof {
                    if !(e is ReadBlock) {
                        assert(crate::blockdir::address_content(tree, addrs@[i as int]@) is None);
                        lemma_read_back_front(tree, views, i as int + 1);
                    } else {
                        assert(views[i as int] == addrs@[i as int]@);
                    }
                }
                return Err(e);
            },
        };
        out.append(&mut bytes);
        i = i + 1;
    }
    assert(views.take(i as int) =~= views);
    Ok(out)
}

/// Where the front of a list of addresses cannot be read back, the whole
/// cannot.
pub proof fn lemma_read_back_front(tree: Tree, addrs: Seq<AddressView>, n: int)
    requires
        0 <= n <= addrs.len(),
        read_back(tree, addrs.take(n)) is None,
    ensures
        read_back(tree, addrs) is None,
    decreases addrs.len() - n,
{
    if n < addrs.len() {
        assert(addrs.take(n + 1).drop_last() =~= addrs.take(n));
        lemma_read_back_front(tree, addrs, n + 1);
    } else {
        assert(addrs.take(n) =~= addrs);
    }
}

/// What a file of an entry is restored as: what is read back of it, cut off
/// at the size that the entry gives.
pub open spec fn restored(tree: Tree, entry: crate::index::EntryView) -> Option<Seq<u8>> {
    match read_back(tree, entry.addrs) {
        Some(bytes) => match entry.size {
            Some(size) => if size < bytes.len() {
                Some(bytes.take(size as int))
            } else {
                Some(bytes)
            },
            None => Some(bytes),
        },
        None => None,
    }
}

/// A file that was stored is restored with the content it had, unless the
/// hash of a piece of it is also that of something else that is stored.
pub proof fn lemma_stored_file_restores(
    tree: Tree,
    entry: crate::index::EntryView,
    content: Seq<u8>,
)
    requires
        content.len() <= u64::MAX,
        entry.addrs == addresses_of(chunks_of(content, MAX_BLOCK_SIZE as nat)),
        entry.size == Some(content.len() as u64),
        no_collision(tree, chunks_of(content, MAX_BLOCK_SIZE as nat)),
    ensures
        restored(tree, entry) matches Some(bytes) ==> bytes == content,
{
    lemma_stored_file_reads_back(tree, content);
}

/// Reads the content of the file of an entry as it is to be restored: what
/// its addresses point to, in order, cut off at its size.
pub fn restore_file_content<T: Transport>(
    block_dir: &mut BlockDir<T>,
    entry: &crate::index::IndexEntry,
    monitor: &mut CollectMonitor,
) -> (r: Result<Vec<u8>, Error>)
    requires
        old(block_dir).wf(),
    ensures
        final(block_dir).wf(),
        final(block_dir).tree() == old(block_dir).tree(),
        final(monitor).reported() == old(monitor).reported(),
        T::steady() ==> (r matches Err(e) ==> !(e is ReadBlock)),
        T::steady() ==> (r is Ok <==> restored(old(block_dir).tree(), entry@) is Some),
        match r {
            Ok(bytes) => restored(old(block_dir).tree(), entry@) == Some(bytes@),
            Err(e) => match e {
                Error::AddressTooLong { .. } | Error::BlockCorrupt { .. } | Error::Compression {
                    ..
                } | Error::BlockMissing { .. } => restored(old(block_dir).tree(), entry@) is None,
                Error::ReadBlock { .. } => read_failure(entry@.addrs, e),
                _ => false,
            },
        },
{
    let mut bytes = match read_file_content(block_dir, &entry.addrs, monitor) {
        Ok(bytes) => bytes,
        Err(e) => {
            return Err(e);
        },
    };
    match entry.size {
        Some(size) => {
            if size < bytes.len() as u64 {
                let ghost whole = bytes@;
                bytes.truncate(size as usize);
                assert(bytes@ =~= whole.take(size as int));
            }
        },
        None => {},
    }
    Ok(bytes)
}

} // verus!
