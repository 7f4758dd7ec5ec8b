//! File contents are stored in data blocks.
//!
//! Data blocks are stored compressed, and are named by the hash of their
//! uncompressed content.
//!
//! The content of a file is told by a list of addresses, each of which says
//! which block holds the data, and which range of its uncompressed bytes.
//!
//! The structure is: archive > blockdir > subdir > file.

use vstd::prelude::*;
use vstd::string::StrSliceExecFns;
use vstd::string::StringExecFns;
use vstd::string::StringSliceAdditionalSpecFns;
use crate::blockhash::BlockHash;
use crate::cache::ByteCache;
use crate::errors::Error;
use crate::index::Address;
use crate::index::AddressView;
use crate::kind::Kind;
use crate::monitor::CollectMonitor;
use crate::monitor::Counter;
use crate::stats::BackupStats;
use crate::stats::BlockDirStats;
use crate::transport::Transport;
use crate::transport::Tree;

verus! {

/// Take this many characters from the block hash to form the subdirectory
/// name.
pub const SUBDIR_NAME_CHARS: usize = 3;

/// Cache this many blocks in memory.
pub const BLOCK_CACHE_SIZE: usize = 100;

/// Remember the existence of this many blocks, even without their content:
/// as many as there are hashes in 64 MiB.
pub const EXISTENCE_CACHE_SIZE: usize = 1_048_576;

/// The name of the subdirectory of a block.
pub open spec fn block_subdir(hash: Seq<u8>) -> Seq<char> {
    crate::blockhash::hex_text(hash).take(SUBDIR_NAME_CHARS as int)
}

/// The path of the file of a block, from the root of the block directory.
pub open spec fn block_path(hash: Seq<u8>) -> Seq<char> {
    block_subdir(hash) + seq!['/'] + crate::blockhash::hex_text(hash)
}

/// The block is there: its file exists and is not empty. (An empty file is
/// what an interrupted write can leave; it counts as no block, so that it can
/// be written again.)
pub open spec fn block_present(tree: Tree, hash: Seq<u8>) -> bool {
    tree.has_file(block_path(hash)) && tree.files[block_path(hash)].len() > 0
}

/// The bytes that the file of a block stands for, if it is there and can be
/// decompressed.
pub open spec fn stored_content(tree: Tree, hash: Seq<u8>) -> Option<Seq<u8>> {
    if tree.has_file(block_path(hash)) {
        crate::compress::snappy_decompressed(tree.files[block_path(hash)])
    } else {
        None
    }
}

/// The content of a block that is sound: it is stored and has the hash it is
/// stored under.
pub open spec fn block_content(tree: Tree, hash: Seq<u8>) -> Option<Seq<u8>> {
    match stored_content(tree, hash) {
        Some(content) => if crate::blockhash::blake2b_digest(content) == hash {
            Some(content)
        } else {
            None
        },
        None => None,
    }
}

/// The bytes that an address points to, if its block is sound and long
/// enough.
pub open spec fn address_content(tree: Tree, address: AddressView) -> Option<Seq<u8>> {
    match block_content(tree, address.hash) {
        Some(content) => if address.start + address.len <= content.len() {
            Some(content.subrange(address.start as int, address.start + address.len))
        } else {
            None
        },
        None => None,
    }
}

/// Blocks with different hashes have different paths.
pub proof fn lemma_block_path_injective(a: Seq<u8>, b: Seq<u8>)
    requires
        a.len() == crate::blockhash::BLAKE_HASH_SIZE_BYTES,
        b.len() == crate::blockhash::BLAKE_HASH_SIZE_BYTES,
        block_path(a) == block_path(b),
    ensures
        a == b,
{
    let ha = crate::blockhash::hex_text(a);
    let hb = crate::blockhash::hex_text(b);
    assert(block_path(a).skip(4) =~= ha);
    assert(block_path(b).skip(4) =~= hb);
    crate::blockhash::lemma_hex_text_injective(a, b);
}

/// Writing or removing the file of one block leaves all other blocks as they
/// are.
pub proof fn lemma_other_blocks(before: Tree, after: Tree, hash: Seq<u8>)
    requires
        hash.len() == crate::blockhash::BLAKE_HASH_SIZE_BYTES,
        forall|p: Seq<char>|
            p != block_path(hash) ==> (before.has_file(p) <==> after.has_file(p)) && (
            before.has_file(p) ==> before.files[p] == after.files[p]),
    ensures
        forall|h: Seq<u8>|
            h.len() == crate::blockhash::BLAKE_HASH_SIZE_BYTES && h != hash ==> (#[trigger] block_present(
                after,
                h,
            ) <==> block_present(before, h)),
        forall|h: Seq<u8>|
            h.len() == crate::blockhash::BLAKE_HASH_SIZE_BYTES && h != hash
                ==> #[trigger] block_content(after, h) == block_content(before, h),
{
    assert forall|h: Seq<u8>|
        h.len() == crate::blockhash::BLAKE_HASH_SIZE_BYTES && h != hash implies (
        #[trigger] block_present(after, h) <==> block_present(before, h)) by {
        if block_path(h) == block_path(hash) {
            lemma_block_path_injective(h, hash);
        }
    }
    assert forall|h: Seq<u8>|
        h.len() == crate::blockhash::BLAKE_HASH_SIZE_BYTES && h
            != hash implies #[trigger] block_content(after, h) == block_content(before, h) by {
        if block_path(h) == block_path(hash) {
            lemma_block_path_injective(h, hash);
        }
    }
}

/// What the counters stand at after a question whether a block is there,
/// which was answered from memory (`known`) or not.
pub open spec fn counts_asked(counts: crate::monitor::Counts, known: bool) -> crate::monitor::Counts {
    if known {
        counts.plus(Counter::BlockExistenceCacheHit, 1)
    } else {
        counts.plus(Counter::BlockExistenceCacheMiss, 1)
    }
}

/// A name that a subdirectory of a block directory can have: one that takes
/// three bytes.
pub open spec fn is_subdir_name(name: Seq<char>) -> bool {
    crate::transport::is_name(name) && has_subdir_len(name)
}

/// There is a file named like a block, `name`, in the subdirectory `dir`.
pub open spec fn block_file_in(tree: Tree, dir: Seq<char>, name: Seq<char>) -> bool {
    &&& is_subdir_name(dir)
    &&& tree.has_dir(dir)
    &&& crate::blockhash::is_hash_name(name)
    &&& tree.has_file(crate::transport::join(dir, name))
}

/// One of the hashes has this name.
pub open spec fn names_hash(hashes: Seq<BlockHash>, name: Seq<char>) -> bool {
    exists|i: int| 0 <= i < hashes.len() && (#[trigger] hashes[i]).name() == name
}

/// There is a file named like a block, `name`, in some subdirectory.
pub open spec fn is_block_file(tree: Tree, name: Seq<char>) -> bool {
    exists|dir: Seq<char>| block_file_in(tree, dir, name)
}

/// Each of the hashes is the name of a file in some subdirectory.
pub open spec fn all_block_files(tree: Tree, hashes: Seq<BlockHash>) -> bool {
    forall|i: int| 0 <= i < hashes.len() ==> is_block_file(tree, (#[trigger] hashes[i]).name())
}

/// Every file named like a block in a subdirectory is among the hashes.
pub open spec fn no_block_file_missed(tree: Tree, hashes: Seq<BlockHash>) -> bool {
    forall|dir: Seq<char>, name: Seq<char>| #[trigger]
        block_file_in(tree, dir, name) ==> names_hash(hashes, name)
}

/// The error says that the subdirectory `dir` could not be listed.
pub open spec fn is_listing_failure(e: Error, dir: Seq<char>) -> bool {
    e matches Error::ListBlocks { source } && source.path@ == dir
}

/// One of the errors says that the subdirectory `dir` could not be listed.
pub open spec fn reports_listing(errors: Seq<Error>, dir: Seq<char>) -> bool {
    exists|k: int| 0 <= k < errors.len() && is_listing_failure(#[trigger] errors[k], dir)
}

/// The error says that a subdirectory of the block directory could not be
/// listed.
pub open spec fn failed_subdir(tree: Tree, e: Error) -> bool {
    e matches Error::ListBlocks { source } && is_subdir_name(source.path@) && tree.has_dir(
        source.path@,
    )
}

/// Each of the errors says that a subdirectory of the block directory could
/// not be listed.
pub open spec fn all_listing_failures(tree: Tree, errors: Seq<Error>) -> bool {
    forall|k: int| 0 <= k < errors.len() ==> failed_subdir(tree, #[trigger] errors[k])
}

/// `hashes` are the blocks of the tree as far as its subdirectories could be
/// listed, and `reports` tell which could not: each hash is the name of a
/// block file, and every block file is among the hashes unless its
/// subdirectory is reported.
pub open spec fn blocks_listed(tree: Tree, hashes: Seq<BlockHash>, reports: Seq<Error>) -> bool {
    &&& all_block_files(tree, hashes)
    &&& all_listing_failures(tree, reports)
    &&& forall|dir: Seq<char>, name: Seq<char>| #[trigger]
        block_file_in(tree, dir, name) ==> names_hash(hashes, name) || reports_listing(
            reports,
            dir,
        )
}

/// What an error says of the block `h` that could not be read: its content
/// has another hash than the block; or its file is no compressed content; or
/// its file is not there; or the storage failed to read it.
pub open spec fn block_fault(tree: Tree, h: Seq<u8>, e: Error) -> bool {
    match e {
        Error::BlockCorrupt { hash } => {
            &&& hash@ == h
            &&& stored_content(tree, h) is Some
            &&& block_content(tree, h) is None
        },
        Error::Compression { message } => {
            &&& tree.has_file(block_path(h))
            &&& stored_content(tree, h) is None
        },
        Error::BlockMissing { block_hash } => {
            &&& block_hash@ == h
            &&& !tree.has_file(block_path(h))
        },
        Error::ReadBlock { hash: name, source } => {
            &&& name@ == crate::blockhash::hex_text(h)
            &&& source.kind != crate::transport::ErrorKind::NotFound
        },
        _ => false,
    }
}

/// One of the errors says that the block `h` could not be read.
pub open spec fn reports_fault(tree: Tree, errors: Seq<Error>, h: Seq<u8>) -> bool {
    exists|k: int| 0 <= k < errors.len() && block_fault(tree, h, #[trigger] errors[k])
}

/// The error says that a subdirectory could not be listed, or that a block
/// that was listed could not be read.
pub open spec fn block_report(tree: Tree, e: Error) -> bool {
    failed_subdir(tree, e) || exists|h: Seq<u8>|
        is_block_file(tree, crate::blockhash::hex_text(h)) && #[trigger] block_fault(tree, h, e)
}

/// Each of the errors is a report of a subdirectory or of a block.
pub open spec fn all_block_reports(tree: Tree, errors: Seq<Error>) -> bool {
    forall|k: int| 0 <= k < errors.len() ==> block_report(tree, #[trigger] errors[k])
}

/// A report more leaves what was reported of blocks reported.
pub proof fn lemma_faults_more(tree: Tree, reports: Seq<Error>, e: Error, h: Seq<u8>)
    requires
        reports_fault(tree, reports, h),
    ensures
        reports_fault(tree, reports.push(e), h),
{
    let k = choose|k: int| 0 <= k < reports.len() && block_fault(tree, h, #[trigger] reports[k]);
    assert(block_fault(tree, h, reports.push(e)[k]));
}

/// The name takes as many bytes as the name of a subdirectory.
pub open spec fn has_subdir_len(name: Seq<char>) -> bool {
    vstd::utf8::encode_utf8(name).len() == SUBDIR_NAME_CHARS
}

/// Those of the names that take as many bytes as the name of a
/// subdirectory, in their order.
pub open spec fn subdir_names(names: Seq<Seq<char>>) -> Seq<Seq<char>>
    decreases names.len(),
{
    if names.len() == 0 {
        Seq::empty()
    } else if has_subdir_len(names.last()) {
        subdir_names(names.drop_last()).push(names.last())
    } else {
        subdir_names(names.drop_last())
    }
}

/// What is picked from names are those among them that are as long as the
/// name of a subdirectory, and each as often as it was there.
pub proof fn lemma_subdir_names(names: Seq<Seq<char>>)
    ensures
        forall|i: int|
            0 <= i < subdir_names(names).len() ==> has_subdir_len(#[trigger] subdir_names(names)[i])
                && names.contains(subdir_names(names)[i]),
        forall|m: int|
            0 <= m < names.len() && has_subdir_len(#[trigger] names[m]) ==> subdir_names(
                names,
            ).contains(names[m]),
        (forall|i: int, j: int| 0 <= i < j < names.len() ==> names[i] != names[j]) ==> (forall|
            i: int,
            j: int,
        |
            0 <= i < j < subdir_names(names).len() ==> subdir_names(names)[i] != subdir_names(
                names,
            )[j]),
    decreases names.len(),
{
    if names.len() > 0 {
        let front = names.drop_last();
        lemma_subdir_names(front);
        let picked = subdir_names(names);
        let before = subdir_names(front);
        assert forall|i: int| 0 <= i < picked.len() implies has_subdir_len(#[trigger] picked[i])
            && names.contains(picked[i]) by {
            if i < before.len() {
                assert(picked[i] == before[i]);
                let m = choose|m: int| 0 <= m < front.len() && front[m] == picked[i];
                assert(names[m] == picked[i]);
            } else {
                assert(picked[i] == names[names.len() - 1]);
            }
        }
        assert forall|m: int|
            0 <= m < names.len() && has_subdir_len(#[trigger] names[m]) implies picked.contains(
            names[m],
        ) by {
            if m < front.len() {
                assert(front[m] == names[m]);
                let i = choose|i: int| 0 <= i < before.len() && before[i] == front[m];
                assert(picked[i] == names[m]);
            } else {
                assert(picked[picked.len() - 1] == names[m]);
            }
        }
        if forall|i: int, j: int| 0 <= i < j < names.len() ==> names[i] != names[j] {
            assert forall|i: int, j: int| 0 <= i < j < front.len() implies front[i] != front[j] by {
                assert(front[i] == names[i] && front[j] == names[j]);
            }
            assert forall|i: int, j: int| 0 <= i < j < picked.len() implies picked[i]
                != picked[j] by {
                if j < before.len() {
                    assert(picked[i] == before[i] && picked[j] == before[j]);
                } else {
                    assert(picked[i] == before[i]);
                    assert(front.contains(before[i]));
                    let m = choose|m: int| 0 <= m < front.len() && front[m] == before[i];
                    assert(names[m] != names[names.len() - 1]);
                }
            }
        }
    }
}

/// Picks from the names of directories those that are as long as the name
/// of a subdirectory of blocks is.
pub fn pick_subdirs(dirs: &Vec<String>) -> (r: Vec<String>)
    ensures
        crate::transport::texts(r@) == subdir_names(crate::transport::texts(dirs@)),
{
    let ghost names = crate::transport::texts(dirs@);
    let mut out: Vec<String> = Vec::new();
    let mut i: usize = 0;
    assert(names.take(0) =~= Seq::<Seq<char>>::empty());
    assert(crate::transport::texts(out@) =~= subdir_names(names.take(0)));
    while i < dirs.len()
        invariant
            i <= dirs.len(),
            names == crate::transport::texts(dirs@),
            crate::transport::texts(out@) == subdir_names(names.take(i as int)),
        decreases dirs.len() - i,
    {
        let ghost before = out@;
        let name = &dirs[i];
        let text = name.as_str();
        let len = text.as_bytes().len();
        proof {
            assert(text.spec_bytes() == vstd::utf8::encode_utf8(name@));
            assert(names.take(i as int + 1).drop_last() =~= names.take(i as int));
            assert(names.take(i as int + 1).last() == name@);
        }
        if len == SUBDIR_NAME_CHARS {
            out.push(name.clone());
            assert(crate::transport::texts(out@) =~= crate::transport::texts(before).push(name@));
        }
        i = i + 1;
    }
    assert(names.take(i as int) =~= names);
    out
}

/// Those of the names that are names of blocks, in their order.
pub open spec fn hash_names(names: Seq<Seq<char>>) -> Seq<Seq<char>>
    decreases names.len(),
{
    if names.len() == 0 {
        Seq::empty()
    } else if crate::blockhash::is_hash_name(names.last()) {
        hash_names(names.drop_last()).push(names.last())
    } else {
        hash_names(names.drop_last())
    }
}

/// The names of hashes.
pub open spec fn names_of(hashes: Seq<BlockHash>) -> Seq<Seq<char>> {
    Seq::new(hashes.len(), |i: int| hashes[i].name())
}

/// What is picked from names are the names of blocks among them.
pub proof fn lemma_hash_names(names: Seq<Seq<char>>)
    ensures
        forall|i: int|
            0 <= i < hash_names(names).len() ==> crate::blockhash::is_hash_name(
                #[trigger] hash_names(names)[i],
            ) && names.contains(hash_names(names)[i]),
        forall|m: int|
            0 <= m < names.len() && crate::blockhash::is_hash_name(#[trigger] names[m])
                ==> hash_names(names).contains(names[m]),
    decreases names.len(),
{
    if names.len() > 0 {
        let front = names.drop_last();
        lemma_hash_names(front);
        let picked = hash_names(names);
        assert forall|i: int| 0 <= i < picked.len() implies crate::blockhash::is_hash_name(
            #[trigger] picked[i],
        ) && names.contains(picked[i]) by {
            if i < hash_names(front).len() {
                assert(picked[i] == hash_names(front)[i]);
                let m = choose|m: int| 0 <= m < front.len() && front[m] == picked[i];
                assert(names[m] == picked[i]);
            } else {
                assert(picked[i] == names[names.len() - 1]);
            }
        }
        assert forall|m: int|
            0 <= m < names.len() && crate::blockhash::is_hash_name(
                #[trigger] names[m],
            ) implies picked.contains(names[m]) by {
            if m < front.len() {
                assert(front[m] == names[m]);
                let i = choose|i: int|
                    0 <= i < hash_names(front).len() && hash_names(front)[i] == front[m];
                assert(picked[i] == names[m]);
            } else {
                assert(picked[picked.len() - 1] == names[m]);
            }
        }
    }
}

/// Names that differ give hash names that differ.
pub proof fn lemma_hash_names_distinct(names: Seq<Seq<char>>)
    requires
        forall|i: int, j: int| 0 <= i < j < names.len() ==> names[i] != names[j],
    ensures
        forall|i: int, j: int|
            0 <= i < j < hash_names(names).len() ==> hash_names(names)[i] != hash_names(names)[j],
    decreases names.len(),
{
    if names.len() > 0 {
        let front = names.drop_last();
        assert forall|i: int, j: int| 0 <= i < j < front.len() implies front[i] != front[j] by {
            assert(front[i] == names[i] && front[j] == names[j]);
        }
        lemma_hash_names_distinct(front);
        lemma_hash_names(front);
        let picked = hash_names(names);
        let before = hash_names(front);
        assert forall|i: int, j: int| 0 <= i < j < picked.len() implies picked[i] != picked[j] by {
            if j < before.len() {
                assert(picked[i] == before[i] && picked[j] == before[j]);
            } else {
                assert(picked[i] == before[i]);
                assert(front.contains(before[i]));
                let m = choose|m: int| 0 <= m < front.len() && front[m] == before[i];
                assert(names[m] != names[names.len() - 1]);
            }
        }
    }
}

/// One of the hashes was found in the subdirectory `dir` under `name`, when
/// `places` tell for each hash where it was found.
pub open spec fn has_place(
    hashes: Seq<BlockHash>,
    places: Seq<Seq<char>>,
    dir: Seq<char>,
    name: Seq<char>,
) -> bool {
    exists|x: int|
        0 <= x < hashes.len() && x < places.len() && places[x] == dir && (
        #[trigger] hashes[x]).name() == name
}

/// Each of the hashes stands for one block file, found in the subdirectory
/// that `places` tell, no file is listed twice, and every block file is
/// listed unless its subdirectory is reported.
pub open spec fn placed_once(
    tree: Tree,
    hashes: Seq<BlockHash>,
    places: Seq<Seq<char>>,
    reports: Seq<Error>,
) -> bool {
    &&& places.len() == hashes.len()
    &&& forall|x: int|
        0 <= x < hashes.len() ==> block_file_in(tree, places[x], (#[trigger] hashes[x]).name())
    &&& forall|x: int, y: int|
        0 <= x < y < hashes.len() ==> places[x] != places[y] || (#[trigger] hashes[x]).name() != (
        #[trigger] hashes[y]).name()
    &&& forall|dir: Seq<char>, name: Seq<char>| #[trigger]
        block_file_in(tree, dir, name) ==> has_place(hashes, places, dir, name) || reports_listing(
            reports,
            dir,
        )
}

/// The hashes list each block file once, but those of the subdirectories
/// that are reported: a hash is listed as often as there are files of its
/// name.
pub open spec fn each_file_once(tree: Tree, hashes: Seq<BlockHash>, reports: Seq<Error>) -> bool {
    exists|places: Seq<Seq<char>>| #[trigger] placed_once(tree, hashes, places, reports)
}

/// Reads the hashes among the names of the files of a subdirectory. Names
/// that are no hashes, those of temporary files among them, are passed over.
pub fn hashes_among(files: &Vec<String>) -> (r: Vec<BlockHash>)
    ensures
        names_of(r@) == hash_names(crate::transport::texts(files@)),
{
    let ghost names = crate::transport::texts(files@);
    let mut out: Vec<BlockHash> = Vec::new();
    let mut j: usize = 0;
    assert(names.take(0) =~= Seq::<Seq<char>>::empty());
    assert(names_of(out@) =~= hash_names(names.take(0)));
    while j < files.len()
        invariant
            j <= files.len(),
            names == crate::transport::texts(files@),
            names_of(out@) == hash_names(names.take(j as int)),
        decreases files.len() - j,
    {
        let ghost before = out@;
        proof {
            assert(names.take(j as int + 1).drop_last() =~= names.take(j as int));
            assert(names.take(j as int + 1).last() == files@[j as int]@);
        }
        match BlockHash::from_str(files[j].as_str()) {
            Some(hash) => {
                out.push(hash);
                assert(names_of(out@) =~= names_of(before).push(files@[j as int]@));
            },
            None => {},
        }
        j = j + 1;
    }
    assert(names.take(j as int) =~= names);
    out
}

/// The error for a subdirectory that could not be listed: what the storage
/// said, as said of that subdirectory.
pub fn listing_failure(dir: &str, source: crate::transport::TransportError) -> (r: Error)
    ensures
        is_listing_failure(r, dir@),
        r matches Error::ListBlocks { source: s } && s.kind == source.kind && s.message@
            == source.message@,
{
    Error::ListBlocks {
        source: crate::transport::TransportError {
            kind: source.kind,
            path: dir.to_owned(),
            message: source.message,
        },
    }
}

/// A report more leaves what was reported of subdirectories reported.
pub proof fn lemma_reports_more(reports: Seq<Error>, e: Error, dir: Seq<char>)
    requires
        reports_listing(reports, dir),
    ensures
        reports_listing(reports.push(e), dir),
{
    let k = choose|k: int| 0 <= k < reports.len() && is_listing_failure(#[trigger] reports[k], dir);
    assert(is_listing_failure(reports.push(e)[k], dir));
}

/// Hashes that are added leave the names that were there.
pub proof fn lemma_names_more(hashes: Seq<BlockHash>, more: Seq<BlockHash>, name: Seq<char>)
    requires
        names_hash(hashes, name) || names_hash(more, name),
    ensures
        names_hash(hashes + more, name),
{
    if names_hash(hashes, name) {
        let i = choose|i: int| 0 <= i < hashes.len() && (#[trigger] hashes[i]).name() == name;
        assert((hashes + more)[i].name() == name);
    } else {
        let i = choose|i: int| 0 <= i < more.len() && (#[trigger] more[i]).name() == name;
        assert((hashes + more)[hashes.len() + i].name() == name);
    }
}

/// The later errors are the earlier ones and then more.
pub open spec fn then_errors(earlier: Seq<Error>, later: Seq<Error>) -> bool {
    earlier.len() <= later.len() && later.take(earlier.len() as int) == earlier
}

/// The name of a block has no separator in it.
pub proof fn lemma_hash_name_is_name(name: Seq<char>)
    requires
        crate::blockhash::is_hash_name(name),
    ensures
        crate::transport::is_name(name),
{
    if name.contains('/') {
        let i = choose|i: int| 0 <= i < name.len() && name[i] == '/';
        assert(crate::blockhash::is_lower_hex(name[i]));
    }
}

/// Returns the subdirectory name of a block, given the name of the block.
fn subdir_relpath(block_hash: &str) -> (r: &str)
    requires
        block_hash@.len() >= SUBDIR_NAME_CHARS,
    ensures
        r@ == block_hash@.take(SUBDIR_NAME_CHARS as int),
{
    let r = block_hash.substring_char(0, SUBDIR_NAME_CHARS);
    assert(block_hash@.subrange(0, SUBDIR_NAME_CHARS as int) =~= block_hash@.take(
        SUBDIR_NAME_CHARS as int,
    ));
    r
}

/// Returns the path of the file of a block, from the root of the block
/// directory.
pub fn block_relpath(hash: &BlockHash) -> (r: String)
    ensures
        r@ == block_path(hash@),
{
    let hash_hex = hash.to_string();
    proof {
        reveal_strlit("/");
    }
    let mut out = String::from_str(subdir_relpath(hash_hex.as_str()));
    out.append("/");
    out.append(hash_hex.as_str());
    assert(out@ =~= block_path(hash@));
    out
}

/// Says whether a block is there, from what the storage told of its file: a
/// file that is not empty is a block; an empty file, a directory, and nothing
/// at all are none. Any other failure of the storage is handed on.
pub fn presence_from(answer: Result<crate::transport::Metadata, crate::transport::TransportError>) -> (r:
    Result<bool, Error>)
    ensures
        r == (match answer {
            Ok(metadata) => Ok::<bool, Error>(metadata.kind == Kind::File && metadata.len > 0),
            Err(source) => if source.kind == crate::transport::ErrorKind::NotFound {
                Ok::<bool, Error>(false)
            } else {
                Err::<bool, Error>(Error::Transport { source })
            },
        }),
{
    match answer {
        Err(source) => {
            if source.is_not_found() {
                Ok(false)
            } else {
                Err(Error::Transport { source })
            }
        },
        Ok(metadata) => Ok(metadata.kind == Kind::File && metadata.len > 0),
    }
}

/// A readable, writable directory within an archive, holding data blocks.
pub struct BlockDir<T: Transport> {
    transport: T,
    stats: BlockDirStats,
    /// The content of blocks that were read or written of late.
    cache: ByteCache,
    /// Presence means that the block is known to exist, even if its content
    /// is not held. The values are empty.
    exists: ByteCache,
}

impl<T: Transport> BlockDir<T> {
    /// What the storage of the block directory holds.
    pub closed spec fn tree(&self) -> Tree {
        self.transport.tree()
    }

    /// What was read since the block directory was opened.
    pub closed spec fn stats_view(&self) -> BlockDirStats {
        self.stats
    }

    /// The block is known to be there without a look at the storage.
    pub closed spec fn knows(&self, hash: Seq<u8>) -> bool {
        crate::cache::cache_entries(self.cache).contains_key(hash) || crate::cache::cache_entries(
            self.exists,
        ).contains_key(hash)
    }

    /// The content of the block is held in memory.
    pub closed spec fn holds(&self, hash: Seq<u8>) -> bool {
        crate::cache::cache_entries(self.cache).contains_key(hash)
    }

    /// What is held in memory is true of the storage: a block that is known
    /// to exist is there, and content that is held is that of its block and
    /// has its hash.
    pub closed spec fn wf(&self) -> bool {
        &&& self.transport.inv()
        &&& crate::cache::cache_limit(self.cache) == BLOCK_CACHE_SIZE
        &&& crate::cache::cache_limit(self.exists) == EXISTENCE_CACHE_SIZE
        &&& crate::cache::cache_bounded(self.cache)
        &&& crate::cache::cache_bounded(self.exists)
        &&& forall|h: Seq<u8>| #[trigger]
            crate::cache::cache_entries(self.cache).contains_key(h) ==> {
                &&& h.len() == crate::blockhash::BLAKE_HASH_SIZE_BYTES
                &&& block_present(self.tree(), h)
                &&& block_content(self.tree(), h) == Some(crate::cache::cache_entries(self.cache)[h])
            }
        &&& forall|h: Seq<u8>| #[trigger]
            crate::cache::cache_entries(self.exists).contains_key(h) ==> {
                &&& h.len() == crate::blockhash::BLAKE_HASH_SIZE_BYTES
                &&& block_present(self.tree(), h)
            }
    }

    /// The blocks whose content is held in memory.
    pub closed spec fn held(&self) -> Set<Seq<u8>> {
        crate::cache::cache_entries(self.cache).dom()
    }

    /// The blocks that are known to exist without their content being held:
    /// those that were asked for and found.
    pub closed spec fn found(&self) -> Set<Seq<u8>> {
        crate::cache::cache_entries(self.exists).dom()
    }

    /// No more is held in memory than the caches are made for.
    pub proof fn lemma_memory_is_bounded(&self)
        requires
            self.wf(),
        ensures
            self.held().finite(),
            self.held().len() <= BLOCK_CACHE_SIZE,
            self.found().finite(),
            self.found().len() <= EXISTENCE_CACHE_SIZE,
            forall|h: Seq<u8>| self.holds(h) <==> self.held().contains(h),
            forall|h: Seq<u8>| self.knows(h) <==> self.held().contains(h) || self.found().contains(h),
    {
    }

    /// What is known without a look at the storage is there.
    pub proof fn lemma_known_is_present(&self, hash: Seq<u8>)
        requires
            self.wf(),
            self.knows(hash),
        ensures
            block_present(self.tree(), hash),
            self.holds(hash) ==> block_content(self.tree(), hash) is Some,
    {
    }

    /// Opens the block directory that `transport` is rooted at.
    pub fn open(transport: T) -> (r: BlockDir<T>)
        requires
            transport.inv(),
        ensures
            r.wf(),
            r.tree() == transport.tree(),
            r.stats_view() == BlockDirStats::zeros(),
            forall|h: Seq<u8>| !r.knows(h),
    {
        let cache = crate::cache::cache_new(BLOCK_CACHE_SIZE);
        let exists = crate::cache::cache_new(EXISTENCE_CACHE_SIZE);
        proof {
            assert(crate::cache::cache_entries(cache).dom() =~= Set::<Seq<u8>>::empty());
            assert(crate::cache::cache_entries(exists).dom() =~= Set::<Seq<u8>>::empty());
        }
        BlockDir { transport, stats: BlockDirStats::new(), cache, exists }
    }

    /// Creates the directory that `transport` is rooted at, and opens it as a
    /// block directory.
    pub fn create(transport: T) -> (r: Result<BlockDir<T>, Error>)
        requires
            transport.inv(),
        ensures
            match r {
                Ok(dir) => {
                    &&& dir.wf()
                    &&& dir.tree() == transport.tree().with_dir(Seq::empty())
                    &&& dir.stats_view() == BlockDirStats::zeros()
                    &&& forall|h: Seq<u8>| !dir.knows(h)
                },
                Err(e) => e is Transport,
            },
            T::steady() ==> r is Ok,
    {
        let mut transport = transport;
        proof {
            reveal_strlit("");
            assert(""@ =~= Seq::<char>::empty());
        }
        match transport.create_dir("") {
            Ok(_) => Ok(BlockDir::open(transport)),
            Err(source) => Err(Error::Transport { source }),
        }
    }

    /// The storage of the block directory.
    pub fn transport(&self) -> (r: &T)
        ensures
            r.tree() == self.tree(),
            self.wf() ==> r.inv(),
    {
        &self.transport
    }

    /// Gives the storage back.
    pub fn into_transport(self) -> (r: T)
        ensures
            r.tree() == self.tree(),
            self.wf() ==> r.inv(),
    {
        self.transport
    }

    /// What was read since the block directory was opened.
    pub fn stats(&self) -> (r: BlockDirStats)
        ensures
            r == self.stats_view(),
    {
        self.stats
    }

    /// True if the named block is present in this block directory.
    ///
    /// Empty block files should never normally occur, because the index does
    /// not point to empty blocks and anyhow the compression method would
    /// expand an empty block to a non-empty compressed form. However, an
    /// interrupted operation on a local filesystem can leave an empty file.
    /// So, these are specifically treated as missing, so there is a chance to
    /// heal them later.
    ///
    /// What is known from memory is answered from memory; `monitor` and the
    /// figures of the block directory tell which way it went.
    pub fn contains(&mut self, hash: &BlockHash, monitor: &mut CollectMonitor) -> (r: Result<
        bool,
        Error,
    >)
        requires
            old(self).wf(),
        ensures
            final(self).wf(),
            final(self).tree() == old(self).tree(),
            final(monitor).reported() == old(monitor).reported(),
            T::steady() ==> r is Ok,
            forall|h: Seq<u8>| final(self).holds(h) == old(self).holds(h),
            forall|h: Seq<u8>| h != hash@ ==> final(self).knows(h) ==> old(self).knows(h),
            match r {
                Ok(found) => {
                    &&& found == block_present(old(self).tree(), hash@)
                    &&& found ==> final(self).knows(hash@)
                    &&& !found ==> forall|h: Seq<u8>| final(self).knows(h) == old(self).knows(h)
                },
                Err(e) => {
                    &&& e matches Error::Transport { source } && source.kind
                        != crate::transport::ErrorKind::NotFound
                    &&& !old(self).knows(hash@)
                    &&& forall|h: Seq<u8>| final(self).knows(h) == old(self).knows(h)
                },
            },
            old(self).knows(hash@) ==> {
                &&& r == Ok::<bool, Error>(true)
                &&& final(monitor).counts() == old(monitor).counts().plus(
                    Counter::BlockExistenceCacheHit,
                    1,
                )
                &&& final(self).stats_view() == old(self).stats_view().hit()
            },
            !old(self).knows(hash@) ==> {
                &&& final(monitor).counts() == old(monitor).counts().plus(
                    Counter::BlockExistenceCacheMiss,
                    1,
                )
                &&& final(self).stats_view() == old(self).stats_view()
            },
    {
        let key = hash.as_bytes();
        if crate::cache::cache_contains(&self.cache, key) || crate::cache::cache_contains(
            &self.exists,
            key,
        ) {
            monitor.count(Counter::BlockExistenceCacheHit, 1);
            self.stats.count_hit();
            return Ok(true);
        }
        monitor.count(Counter::BlockExistenceCacheMiss, 1);
        let relpath = block_relpath(hash);
        let answer = presence_from(self.transport.metadata(relpath.as_str()));
        match answer {
            Ok(true) => {
                crate::cache::cache_put(&mut self.exists, key, Vec::new());
            },
            _ => {},
        }
        answer
    }

    /// Stores block data, if it is not already present, and returns its hash.
    ///
    /// A block that is there already is not written again, and is counted as
    /// deduplicated; a block whose file is missing or empty is written.
    pub fn store_or_deduplicate(
        &mut self,
        block_data: &[u8],
        stats: &mut BackupStats,
        monitor: &mut CollectMonitor,
    ) -> (r: Result<BlockHash, Error>)
        requires
            old(self).wf(),
        ensures
            final(self).wf(),
            final(monitor).reported() == old(monitor).reported(),
            final(self).tree().files.dom().subset_of(
                old(self).tree().files.dom().insert(
                    block_path(crate::blockhash::blake2b_digest(block_data@)),
                ),
            ),
            old(self).knows(crate::blockhash::blake2b_digest(block_data@)) ==> r is Ok,
            T::steady() && block_data@.len() <= crate::compress::MAX_COMPRESS_INPUT ==> r is Ok,
            !block_present(old(self).tree(), crate::blockhash::blake2b_digest(block_data@))
                && block_data@.len() > crate::compress::MAX_COMPRESS_INPUT ==> r is Err,
            T::steady() ==> (r matches Err(e) ==> e is Compression),
            final(self).stats_view() == (if old(self).knows(
                crate::blockhash::blake2b_digest(block_data@),
            ) {
                old(self).stats_view().hit()
            } else {
                old(self).stats_view()
            }),
            ({
                let hash = crate::blockhash::blake2b_digest(block_data@);
                let path = block_path(hash);
                let was = block_present(old(self).tree(), hash);
                let asked = counts_asked(old(monitor).counts(), old(self).knows(hash));
                let len = block_data@.len();
                match r {
                    Ok(h) => {
                        &&& h@ == hash
                        &&& block_present(final(self).tree(), hash)
                        &&& final(self).knows(hash)
                        &&& was ==> {
                            &&& final(self).tree() == old(self).tree()
                            &&& *final(stats) == old(stats).deduplicated(len as u64)
                            &&& final(monitor).counts() == asked.plus(
                                Counter::DeduplicatedBlocks,
                                1,
                            ).plus(Counter::DeduplicatedBlockBytes, len as usize)
                        }
                        &&& !was ==> {
                            let stored = final(self).tree().files[path];
                            &&& final(self).tree() == old(self).tree().with_dir(
                                block_subdir(hash),
                            ).with_file(path, stored)
                            &&& block_content(final(self).tree(), hash) == Some(block_data@)
                            &&& final(self).holds(hash)
                            &&& *final(stats) == old(stats).written(len as u64, stored.len() as u64)
                            &&& final(monitor).counts() == asked.plus(
                                Counter::BlockWriteUncompressedBytes,
                                len as usize,
                            ).plus(Counter::BlockWrites, 1).plus(
                                Counter::BlockWriteCompressedBytes,
                                stored.len() as usize,
                            )
                        }
                    },
                    Err(e) => {
                        &&& *final(stats) == *old(stats)
                        &&& final(self).tree().files == old(self).tree().files
                        &&& match e {
                            Error::Transport { source } => {
                                &&& final(self).tree() == old(self).tree()
                                &&& final(monitor).counts() == asked
                            },
                            Error::Compression { message } => {
                                &&& !was
                                &&& len > crate::compress::MAX_COMPRESS_INPUT
                                &&& final(self).tree() == old(self).tree()
                                &&& final(monitor).counts() == asked
                            },
                            Error::WriteBlock { hash: name, source } => {
                                &&& !was
                                &&& name@ == crate::blockhash::hex_text(hash)
                                &&& final(self).tree() == old(self).tree() || final(self).tree()
                                    == old(self).tree().with_dir(block_subdir(hash))
                                &&& final(monitor).counts() == asked.plus(
                                    Counter::BlockWriteUncompressedBytes,
                                    len as usize,
                                )
                            },
                            _ => false,
                        }
                    },
                }
            }),
    {
        let hash = BlockHash::hash_bytes(block_data);
        let uncomp_len = block_data.len() as u64;
        let found = match self.contains(&hash, monitor) {
            Ok(found) => found,
            Err(e) => {
                return Err(e);
            },
        };
        if found {
            stats.count_deduplicated(uncomp_len);
            monitor.count(Counter::DeduplicatedBlocks, 1);
            monitor.count(Counter::DeduplicatedBlockBytes, block_data.len());
            return Ok(hash);
        }
        let compressed = match crate::compress::compress(block_data) {
            Ok(compressed) => compressed,
            Err(e) => {
                return Err(e);
            },
        };
        monitor.count(Counter::BlockWriteUncompressedBytes, block_data.len());
        let comp_len = compressed.len() as u64;
        let hex_hash = hash.to_string();
        let relpath = block_relpath(&hash);
        let ghost before = self.transport.tree();
        match self.transport.create_dir(subdir_relpath(hex_hash.as_str())) {
            Ok(_) => {},
            Err(source) => {
                return Err(Error::WriteBlock { hash: hex_hash, source });
            },
        }
        proof {
            lemma_other_blocks(before, self.transport.tree(), hash@);
        }
        match self.transport.write_file(relpath.as_str(), compressed.as_slice()) {
            Ok(_) => {},
            Err(source) => {
                return Err(Error::WriteBlock { hash: hex_hash, source });
            },
        }
        proof {
            lemma_other_blocks(before, self.transport.tree(), hash@);
            assert(self.transport.tree().files.dom() =~= before.files.dom().insert(
                block_path(hash@),
            ));
        }
        stats.count_written(uncomp_len, comp_len);
        monitor.count(Counter::BlockWrites, 1);
        monitor.count(Counter::BlockWriteCompressedBytes, compressed.len());
        // Only update caches after everything succeeded.
        crate::cache::cache_put(&mut self.cache, hash.as_bytes(), vstd::slice::slice_to_vec(block_data));
        crate::cache::cache_put(&mut self.exists, hash.as_bytes(), Vec::new());
        Ok(hash)
    }

    /// Returns the entire content of the block.
    ///
    /// Checks that the content has the hash it is stored under. A block
    /// whose file is not there is missing; one whose content has another hash
    /// is corrupt.
    pub fn get_block_content(&mut self, hash: &BlockHash, monitor: &mut CollectMonitor) -> (r:
        Result<Vec<u8>, Error>)
        requires
            old(self).wf(),
        ensures
            final(self).wf(),
            final(self).tree() == old(self).tree(),
            final(monitor).reported() == old(monitor).reported(),
            T::steady() ==> (r matches Err(e) ==> !(e is ReadBlock)),
            T::steady() ==> (r is Ok <==> block_content(old(self).tree(), hash@) is Some),
            match r {
                Ok(content) => {
                    &&& block_content(old(self).tree(), hash@) == Some(content@)
                    &&& final(self).holds(hash@)
                },
                Err(e) => {
                    &&& !old(self).holds(hash@)
                    &&& forall|h: Seq<u8>|
                        final(self).knows(h) == old(self).knows(h) && final(self).holds(h) == old(
                            self,
                        ).holds(h)
                    &&& final(monitor).counts() == old(monitor).counts().plus(
                        Counter::BlockContentCacheMiss,
                        1,
                    )
                    &&& final(self).stats_view() == old(self).stats_view()
                    &&& match e {
                        Error::BlockCorrupt { hash: h } => {
                            &&& h@ == hash@
                            &&& stored_content(old(self).tree(), hash@) is Some
                            &&& block_content(old(self).tree(), hash@) is None
                        },
                        Error::Compression { message } => {
                            &&& old(self).tree().has_file(block_path(hash@))
                            &&& stored_content(old(self).tree(), hash@) is None
                        },
                        Error::BlockMissing { block_hash } => {
                            &&& block_hash@ == hash@
                            &&& !old(self).tree().has_file(block_path(hash@))
                        },
                        Error::ReadBlock { hash: name, source } => {
                            &&& name@ == crate::blockhash::hex_text(hash@)
                            &&& source.kind != crate::transport::ErrorKind::NotFound
                        },
                        _ => false,
                    }
                },
            },
            old(self).holds(hash@) ==> {
                &&& r is Ok
                &&& final(monitor).counts() == old(monitor).counts().plus(
                    Counter::BlockContentCacheHit,
                    1,
                )
                &&& final(self).stats_view() == old(self).stats_view().hit()
            },
            !old(self).holds(hash@) && r is Ok ==> {
                let stored = old(self).tree().files[block_path(hash@)].len() as usize;
                let len = r->Ok_0@.len() as usize;
                &&& final(monitor).counts() == old(monitor).counts().plus(
                    Counter::BlockContentCacheMiss,
                    1,
                ).plus(Counter::BlockReads, 1).plus(Counter::BlockReadCompressedBytes, stored).plus(
                    Counter::BlockReadUncompressedBytes,
                    len,
                )
                &&& final(self).stats_view() == old(self).stats_view().read(stored, len)
            },
    {
        let key = hash.as_bytes();
        match crate::cache::cache_get(&mut self.cache, key) {
            Some(hit) => {
                monitor.count(Counter::BlockContentCacheHit, 1);
                self.stats.count_hit();
                return Ok(hit);
            },
            None => {},
        }
        monitor.count(Counter::BlockContentCacheMiss, 1);
        let block_relpath = block_relpath(hash);
        let compressed_bytes = match self.transport.read_file(block_relpath.as_str()) {
            Ok(bytes) => bytes,
            Err(source) => {
                if source.is_not_found() {
                    return Err(Error::BlockMissing { block_hash: hash.clone() });
                } else {
                    return Err(Error::ReadBlock { hash: hash.to_string(), source });
                }
            },
        };
        let decompressed_bytes = match crate::compress::decompress(compressed_bytes.as_slice()) {
            Ok(bytes) => bytes,
            Err(e) => {
                return Err(e);
            },
        };
        let actual_hash = BlockHash::hash_bytes(decompressed_bytes.as_slice());
        if !actual_hash.same_as(hash) {
            return Err(Error::BlockCorrupt { hash: hash.clone() });
        }
        crate::cache::cache_put(&mut self.cache, key, decompressed_bytes.clone());
        crate::cache::cache_put(&mut self.exists, key, Vec::new());
        self.stats.count_read(compressed_bytes.len(), decompressed_bytes.len());
        monitor.count(Counter::BlockReads, 1);
        monitor.count(Counter::BlockReadCompressedBytes, compressed_bytes.len());
        monitor.count(Counter::BlockReadUncompressedBytes, decompressed_bytes.len());
        Ok(decompressed_bytes)
    }

    /// Reads back some content addressed by an [`Address`] (a block hash, a
    /// start and a length).
    pub fn read_address(&mut self, address: &Address, monitor: &mut CollectMonitor) -> (r: Result<
        Vec<u8>,
        Error,
    >)
        requires
            old(self).wf(),
        ensures
            final(self).wf(),
            final(self).tree() == old(self).tree(),
            final(monitor).reported() == old(monitor).reported(),
            T::steady() ==> (r matches Err(e) ==> !(e is ReadBlock)),
            T::steady() ==> (r is Ok <==> address_content(old(self).tree(), address@) is Some),
            old(self).holds(address.hash@) ==> (r matches Err(e) ==> !(e is ReadBlock)),
            old(self).holds(address.hash@) ==> (r is Ok <==> address_content(
                old(self).tree(),
                address@,
            ) is Some),
            match r {
                Ok(bytes) => address_content(old(self).tree(), address@) == Some(bytes@),
                Err(e) => match e {
                    Error::AddressTooLong { address: a, actual_len } => {
                        &&& a@ == address@
                        &&& block_content(old(self).tree(), address.hash@) is Some
                        &&& block_content(old(self).tree(), address.hash@)->0.len() == actual_len
                        &&& address.start + address.len > actual_len
                    },
                    Error::BlockCorrupt { hash: h } => {
                        &&& h@ == address.hash@
                        &&& stored_content(old(self).tree(), address.hash@) is Some
                        &&& block_content(old(self).tree(), address.hash@) is None
                    },
                    Error::Compression { message } => {
                        &&& old(self).tree().has_file(block_path(address.hash@))
                        &&& stored_content(old(self).tree(), address.hash@) is None
                    },
                    Error::BlockMissing { block_hash } => {
                        &&& block_hash@ == address.hash@
                        &&& !old(self).tree().has_file(block_path(address.hash@))
                    },
                    Error::ReadBlock { hash: name, source } => {
                        &&& name@ == crate::blockhash::hex_text(address.hash@)
                        &&& source.kind != crate::transport::ErrorKind::NotFound
                    },
                    _ => false,
                },
            },
    {
        let bytes = match self.get_block_content(&address.hash, monitor) {
            Ok(bytes) => bytes,
            Err(e) => {
                return Err(e);
            },
        };
        let actual_len = bytes.len();
        if address.start > actual_len as u64 || address.len > actual_len as u64 - address.start {
            return Err(Error::AddressTooLong { address: address.clone(), actual_len });
        }
        let start = address.start as usize;
        let end = start + address.len as usize;
        Ok(vstd::slice::slice_to_vec(vstd::slice::slice_subrange(bytes.as_slice(), start, end)))
    }

    /// Returns the names of the block subdirectories, in arbitrary order.
    /// Directories whose names do not have the length of a subdirectory name
    /// are passed over.
    pub fn subdirs(&self) -> (r: Result<Vec<String>, Error>)
        requires
            self.wf(),
        ensures
            match r {
                Ok(names) => crate::transport::names_in(
                    crate::transport::texts(names@),
                    Seq::empty(),
                    |p: Seq<char>| self.tree().has_dir(p) && is_subdir_name(p),
                ),
                Err(e) => e is Transport,
            },
            T::steady() ==> r is Ok,
    {
        proof {
            reveal_strlit("");
            assert(""@ =~= Seq::<char>::empty());
        }
        let list = match self.transport.list_dir("") {
            Ok(list) => list,
            Err(source) => {
                return Err(Error::Transport { source });
            },
        };
        let ghost tree = self.tree();
        let ghost top = Seq::<char>::empty();
        let ghost all = crate::transport::texts(list.dirs@);
        let ghost wanted = |p: Seq<char>| tree.has_dir(p) && is_subdir_name(p);
        let out = pick_subdirs(&list.dirs);
        proof {
            lemma_subdir_names(all);
            let names = crate::transport::texts(out@);
            assert forall|j: int| 0 <= j < names.len() implies crate::transport::is_name(
                #[trigger] names[j],
            ) && wanted(crate::transport::join(top, names[j])) by {
                assert(all.contains(names[j]));
                let k = choose|k: int| 0 <= k < all.len() && all[k] == names[j];
                assert(crate::transport::join(top, all[k]) == all[k]);
            }
            assert forall|n: Seq<char>|
                crate::transport::is_name(n) && wanted(
                    crate::transport::join(top, n),
                ) implies names.contains(n) by {
                assert(crate::transport::join(top, n) == n);
                assert(all.contains(n));
                let k = choose|k: int| 0 <= k < all.len() && all[k] == n;
                assert(has_subdir_len(all[k]));
            }
        }
        Ok(out)
    }

    /// Returns the hashes of all the blocks in the block directory, in
    /// arbitrary order: one for each file in a subdirectory whose name is that
    /// of a block. Other files, such as those under temporary names, are
    /// passed over.
    ///
    /// A subdirectory that cannot be listed is reported to `monitor`, with
    /// its name as the path of the error, and passed over: every block is
    /// listed but those of the subdirectories reported. On a steady transport
    /// nothing is reported.
    pub fn blocks(&self, monitor: &mut CollectMonitor) -> (r: Result<Vec<BlockHash>, Error>)
        requires
            self.wf(),
        ensures
            final(monitor).counts() == old(monitor).counts(),
            then_errors(old(monitor).reported(), final(monitor).reported()),
            T::steady() ==> r is Ok && final(monitor).reported() == old(monitor).reported(),
            match r {
                Ok(hashes) => {
                    &&& blocks_listed(
                        self.tree(),
                        hashes@,
                        final(monitor).reported().skip(old(monitor).reported().len() as int),
                    )
                    &&& each_file_once(
                        self.tree(),
                        hashes@,
                        final(monitor).reported().skip(old(monitor).reported().len() as int),
                    )
                    &&& final(monitor).reported().len() == old(monitor).reported().len()
                        ==> no_block_file_missed(self.tree(), hashes@)
                },
                Err(e) => e is Transport && final(monitor).reported() == old(monitor).reported(),
            },
    {
        let ghost errors = monitor.reported();
        assert(errors.take(errors.len() as int) =~= errors);
        let subdirs = match self.subdirs() {
            Ok(subdirs) => subdirs,
            Err(e) => {
                return Err(e);
            },
        };
        let ghost tree = self.tree();
        let ghost top = Seq::<char>::empty();
        let ghost dirs = crate::transport::texts(subdirs@);
        let mut out: Vec<BlockHash> = Vec::new();
        let mut i: usize = 0;
        let ghost mut places: Seq<Seq<char>> = Seq::empty();
        let ghost mut from: Seq<int> = Seq::empty();
        assert(monitor.reported().skip(errors.len() as int) =~= Seq::<Error>::empty());
        while i < subdirs.len()
            invariant
                i <= subdirs.len(),
                self.wf(),
                tree == self.tree(),
                dirs == crate::transport::texts(subdirs@),
                forall|a: int, b: int| 0 <= a < b < dirs.len() ==> dirs[a] != dirs[b],
                places.len() == out@.len(),
                from.len() == out@.len(),
                forall|x: int|
                    0 <= x < out@.len() ==> 0 <= #[trigger] from[x] < i && places[x] == dirs[from[x]],
                forall|x: int|
                    0 <= x < out@.len() ==> block_file_in(
                        tree,
                        places[x],
                        (#[trigger] out@[x]).name(),
                    ),
                forall|x: int, y: int|
                    0 <= x < y < out@.len() ==> places[x] != places[y] || (#[trigger] out@[x]).name()
                        != (#[trigger] out@[y]).name(),
                forall|k: int, name: Seq<char>|
                    0 <= k < i && #[trigger] block_file_in(tree, dirs[k], name) ==> has_place(
                        out@,
                        places,
                        dirs[k],
                        name,
                    ) || reports_listing(monitor.reported().skip(errors.len() as int), dirs[k]),
                forall|k: int|
                    0 <= k < dirs.len() ==> is_subdir_name(#[trigger] dirs[k]) && tree.has_dir(
                        dirs[k],
                    ),
                monitor.counts() == old(monitor).counts(),
                errors == old(monitor).reported(),
                then_errors(errors, monitor.reported()),
                T::steady() ==> monitor.reported() == errors,
                all_block_files(tree, out@),
                all_listing_failures(tree, monitor.reported().skip(errors.len() as int)),
                forall|k: int, name: Seq<char>|
                    0 <= k < i && #[trigger] block_file_in(tree, dirs[k], name) ==> names_hash(
                        out@,
                        name,
                    ) || reports_listing(monitor.reported().skip(errors.len() as int), dirs[k]),
            decreases subdirs.len() - i,
        {
            let subdir_name = &subdirs[i];
            let ghost dir = dirs[i as int];
            assert(dir == subdir_name@);
            let ghost fresh = monitor.reported().skip(errors.len() as int);
            let ghost before = out@;
            match self.transport.list_dir(subdir_name.as_str()) {
                Err(source) => {
                    let ghost reported = monitor.reported();
                    let failure = listing_failure(subdir_name.as_str(), source);
                    monitor.error(failure);
                    proof {
                        let after = monitor.reported().skip(errors.len() as int);
                        assert(monitor.reported().take(errors.len() as int) =~= reported.take(
                            errors.len() as int,
                        ));
                        assert(after =~= fresh.push(failure));
                        assert(is_listing_failure(after[after.len() - 1], dir));
                        assert forall|k: int, name: Seq<char>|
                            0 <= k < i + 1 && #[trigger] block_file_in(
                                tree,
                                dirs[k],
                                name,
                            ) implies names_hash(out@, name) || reports_listing(after, dirs[k]) by {
                            if k < i && !names_hash(out@, name) {
                                lemma_reports_more(fresh, failure, dirs[k]);
                            }
                        }
                        assert forall|k: int| 0 <= k < after.len() implies failed_subdir(
                            tree,
                            #[trigger] after[k],
                        ) by {
                            if k < fresh.len() {
                                assert(after[k] == fresh[k]);
                            }
                        }
                        assert forall|k: int, name: Seq<char>|
                            0 <= k < i + 1 && #[trigger] block_file_in(
                                tree,
                                dirs[k],
                                name,
                            ) implies has_place(out@, places, dirs[k], name) || reports_listing(
                            after,
                            dirs[k],
                        ) by {
                            if k < i && !has_place(out@, places, dirs[k], name) {
                                lemma_reports_more(fresh, failure, dirs[k]);
                            }
                        }
                    }
                },
                Ok(list) => {
                    let mut found = hashes_among(&list.files);
                    let ghost names = crate::transport::texts(list.files@);
                    let ghost more = found@;
                    out.append(&mut found);
                    proof {
                        lemma_hash_names(names);
                        assert(out@ =~= before + more);
                        assert forall|x: int| 0 <= x < out@.len() implies is_block_file(
                            tree,
                            (#[trigger] out@[x]).name(),
                        ) by {
                            if x < before.len() {
                                assert(out@[x] == before[x]);
                            } else {
                                let y = x - before.len();
                                assert(out@[x] == more[y]);
                                assert(names_of(more)[y] == more[y].name());
                                let name = hash_names(names)[y];
                                assert(names.contains(name));
                                assert(block_file_in(tree, dir, name));
                            }
                        }
                        assert forall|k: int, name: Seq<char>|
                            0 <= k < i + 1 && #[trigger] block_file_in(
                                tree,
                                dirs[k],
                                name,
                            ) implies names_hash(out@, name) || reports_listing(fresh, dirs[k]) by {
                            if k < i {
                                if names_hash(before, name) {
                                    lemma_names_more(before, more, name);
                                }
                            } else {
                                lemma_hash_name_is_name(name);
                                assert(names.contains(name));
                                let m = choose|m: int| 0 <= m < names.len() && names[m] == name;
                                assert(hash_names(names).contains(names[m]));
                                let y = choose|y: int|
                                    0 <= y < hash_names(names).len() && hash_names(names)[y]
                                        == name;
                                assert(names_of(more)[y] == more[y].name());
                                assert(names_hash(more, name));
                                lemma_names_more(before, more, name);
                            }
                        }
                        lemma_hash_names_distinct(names);
                        let places_before = places;
                        let from_before = from;
                        places = places + Seq::new(more.len(), |y: int| dir);
                        from = from + Seq::new(more.len(), |y: int| i as int);
                        assert forall|x: int| 0 <= x < out@.len() implies 0 <= #[trigger] from[x] < i
                            + 1 && places[x] == dirs[from[x]] by {
                            if x < before.len() {
                                assert(from[x] == from_before[x]);
                                assert(places[x] == places_before[x]);
                            }
                        }
                        assert forall|x: int| 0 <= x < out@.len() implies block_file_in(
                            tree,
                            places[x],
                            (#[trigger] out@[x]).name(),
                        ) by {
                            if x < before.len() {
                                assert(places[x] == places_before[x]);
                                assert(out@[x] == before[x]);
                            } else {
                                let y = x - before.len();
                                assert(out@[x] == more[y]);
                                assert(names_of(more)[y] == more[y].name());
                                assert(names.contains(hash_names(names)[y]));
                            }
                        }
                        assert forall|x: int, y: int| 0 <= x < y < out@.len() implies places[x]
                            != places[y] || (#[trigger] out@[x]).name() != (
                        #[trigger] out@[y]).name() by {
                            if y < before.len() {
                                assert(places[x] == places_before[x] && places[y]
                                    == places_before[y]);
                                assert(out@[x] == before[x] && out@[y] == before[y]);
                            } else if x < before.len() {
                                assert(places[x] == places_before[x]);
                                assert(places[x] == dirs[from_before[x]]);
                                assert(places[y] == dir);
                            } else {
                                let a = x - before.len();
                                let b = y - before.len();
                                assert(out@[x] == more[a] && out@[y] == more[b]);
                                assert(names_of(more)[a] == more[a].name());
                                assert(names_of(more)[b] == more[b].name());
                            }
                        }
                        assert forall|k: int, name: Seq<char>|
                            0 <= k < i + 1 && #[trigger] block_file_in(
                                tree,
                                dirs[k],
                                name,
                            ) implies has_place(out@, places, dirs[k], name) || reports_listing(
                            fresh,
                            dirs[k],
                        ) by {
                            if k < i {
                                if has_place(before, places_before, dirs[k], name) {
                                    let x = choose|x: int|
                                        0 <= x < before.len() && x < places_before.len()
                                            && places_before[x] == dirs[k] && (
                                        #[trigger] before[x]).name() == name;
                                    assert(out@[x] == before[x]);
                                    assert(places[x] == places_before[x]);
                                }
                            } else {
                                lemma_hash_name_is_name(name);
                                assert(names.contains(name));
                                let m = choose|m: int| 0 <= m < names.len() && names[m] == name;
                                assert(hash_names(names).contains(names[m]));
                                let y = choose|y: int|
                                    0 <= y < hash_names(names).len() && hash_names(names)[y]
                                        == name;
                                assert(names_of(more)[y] == more[y].name());
                                let x = before.len() + y;
                                assert(out@[x] == more[y]);
                                assert(places[x] == dir);
                            }
                        }
                    }
                },
            }
            i = i + 1;
        }
        proof {
            let fresh = monitor.reported().skip(errors.len() as int);
            assert forall|dir: Seq<char>, name: Seq<char>| #[trigger]
                block_file_in(tree, dir, name) implies names_hash(out@, name) || reports_listing(
                fresh,
                dir,
            ) by {
                assert(crate::transport::join(top, dir) == dir);
                assert(dirs.contains(dir));
                let k = choose|k: int| 0 <= k < dirs.len() && dirs[k] == dir;
                assert(block_file_in(tree, dirs[k], name));
            }
            assert forall|dir: Seq<char>, name: Seq<char>| #[trigger]
                block_file_in(tree, dir, name) implies has_place(out@, places, dir, name)
                || reports_listing(fresh, dir) by {
                assert(crate::transport::join(top, dir) == dir);
                assert(dirs.contains(dir));
                let k = choose|k: int| 0 <= k < dirs.len() && dirs[k] == dir;
                assert(block_file_in(tree, dirs[k], name));
            }
            assert(placed_once(tree, out@, places, fresh));
            if monitor.reported().len() == errors.len() {
                assert(fresh.len() == 0);
            }
        }
        Ok(out)
    }

    /// Checks the blocks of the block directory: reads every block and
    /// checks that its content has the hash it is stored under.
    ///
    /// Returns the uncompressed length of every block that is sound. What is
    /// wrong with the others is reported to `monitor`: each report is of a
    /// subdirectory that could not be listed or of a block that could not be
    /// read, and every block is in the table or reported, itself or its
    /// subdirectory. On a steady transport the table holds exactly the
    /// blocks that are sound.
    pub fn validate(&mut self, monitor: &mut CollectMonitor) -> (r: Result<
        crate::blockset::BlockLengths,
        Error,
    >)
        requires
            old(self).wf(),
        ensures
            final(self).wf(),
            final(self).tree() == old(self).tree(),
            then_errors(old(monitor).reported(), final(monitor).reported()),
            T::steady() ==> r is Ok,
            match r {
                Ok(lengths) => {
                    let fresh = final(monitor).reported().skip(
                        old(monitor).reported().len() as int,
                    );
                    &&& lengths.wf()
                    &&& forall|h: Seq<u8>| #[trigger]
                        lengths@.contains_key(h) ==> {
                            &&& is_block_file(old(self).tree(), crate::blockhash::hex_text(h))
                            &&& block_content(old(self).tree(), h) is Some
                            &&& block_content(old(self).tree(), h)->0.len() == lengths@[h]
                        }
                    &&& all_block_reports(old(self).tree(), fresh)
                    &&& forall|dir: Seq<char>, h: Seq<u8>|
                        h.len() == crate::blockhash::BLAKE_HASH_SIZE_BYTES && #[trigger] block_file_in(
                            old(self).tree(),
                            dir,
                            crate::blockhash::hex_text(h),
                        ) ==> lengths@.contains_key(h) || reports_listing(fresh, dir)
                            || reports_fault(old(self).tree(), fresh, h)
                    &&& final(monitor).reported().len() == old(monitor).reported().len()
                        ==> forall|dir: Seq<char>, h: Seq<u8>|
                        h.len() == crate::blockhash::BLAKE_HASH_SIZE_BYTES && #[trigger] block_file_in(
                            old(self).tree(),
                            dir,
                            crate::blockhash::hex_text(h),
                        ) ==> lengths@.contains_key(h)
                    &&& T::steady() ==> forall|dir: Seq<char>, h: Seq<u8>|
                        h.len() == crate::blockhash::BLAKE_HASH_SIZE_BYTES && #[trigger] block_file_in(
                            old(self).tree(),
                            dir,
                            crate::blockhash::hex_text(h),
                        ) && block_content(old(self).tree(), h) is Some ==> lengths@.contains_key(h)
                },
                Err(e) => e is Transport && final(monitor).reported() == old(monitor).reported(),
            },
    {
        let ghost tree = self.tree();
        let ghost errors = monitor.reported();
        let listed = match self.blocks(monitor) {
            Ok(listed) => listed,
            Err(e) => {
                assert(errors.take(errors.len() as int) =~= errors);
                return Err(e);
            },
        };
        let ghost names = listed@;
        let ghost listing = monitor.reported().skip(errors.len() as int);
        let blocks = crate::blockset::BlockSet::from_hashes(listed);
        let mut lengths = crate::blockset::BlockLengths::new();
        let mut i: usize = 0;
        proof {
            blocks.lemma_ordered();
            assert forall|k: int| 0 <= k < listing.len() implies block_report(
                tree,
                #[trigger] listing[k],
            ) by {
                assert(failed_subdir(tree, listing[k]));
            }
        }
        let count = blocks.len();
        while i < count
            invariant
                i <= count,
                count == blocks.ordered().len(),
                self.wf(),
                self.tree() == tree,
                tree == old(self).tree(),
                blocks.wf(),
                blocks@ == crate::blockset::hash_set(names),
                blocks@ == crate::blockset::hash_set(blocks.ordered()),
                errors == old(monitor).reported(),
                then_errors(errors, monitor.reported()),
                all_block_files(tree, names),
                lengths.wf(),
                all_block_reports(tree, monitor.reported().skip(errors.len() as int)),
                forall|dir: Seq<char>| #[trigger]
                    reports_listing(listing, dir) ==> reports_listing(
                        monitor.reported().skip(errors.len() as int),
                        dir,
                    ),
                T::steady() ==> listing.len() == 0,
                forall|h: Seq<u8>| #[trigger]
                    lengths@.contains_key(h) ==> {
                        &&& blocks@.contains(h)
                        &&& block_content(tree, h) is Some
                        &&& block_content(tree, h)->0.len() == lengths@[h]
                    },
                forall|k: int|
                    0 <= k < i ==> lengths@.contains_key((#[trigger] blocks.ordered()[k])@)
                        || reports_fault(
                        tree,
                        monitor.reported().skip(errors.len() as int),
                        blocks.ordered()[k]@,
                    ),
                T::steady() ==> forall|k: int|
                    0 <= k < i && block_content(tree, (#[trigger] blocks.ordered()[k])@) is Some
                        ==> lengths@.contains_key(blocks.ordered()[k]@),
            decreases count - i,
        {
            let hash = blocks.get(i);
            let ghost fresh = monitor.reported().skip(errors.len() as int);
            match self.get_block_content(hash, monitor) {
                Ok(bytes) => {
                    lengths.insert(hash.clone(), bytes.len());
                },
                Err(err) => {
                    let ghost before = monitor.reported();
                    monitor.error(err);
                    proof {
                        let after = monitor.reported().skip(errors.len() as int);
                        assert(monitor.reported().take(errors.len() as int) =~= before.take(
                            errors.len() as int,
                        ));
                        assert(after =~= fresh.push(err));
                        assert(block_fault(tree, hash@, err));
                        assert(block_fault(tree, hash@, after[after.len() - 1]));
                        let k = choose|k: int| 0 <= k < names.len() && (#[trigger] names[k])@ == hash@;
                        assert(is_block_file(tree, names[k].name()));
                        assert(block_report(tree, err));
                        assert forall|k: int| 0 <= k < after.len() implies block_report(
                            tree,
                            #[trigger] after[k],
                        ) by {
                            if k < fresh.len() {
                                assert(after[k] == fresh[k]);
                            }
                        }
                        assert forall|dir: Seq<char>| #[trigger]
                            reports_listing(listing, dir) implies reports_listing(after, dir) by {
                            lemma_reports_more(fresh, err, dir);
                        }
                        assert forall|k: int| 0 <= k < i + 1 implies lengths@.contains_key(
                            (#[trigger] blocks.ordered()[k])@,
                        ) || reports_fault(tree, after, blocks.ordered()[k]@) by {
                            if k < i && !lengths@.contains_key(blocks.ordered()[k]@) {
                                lemma_faults_more(tree, fresh, err, blocks.ordered()[k]@);
                            }
                        }
                    }
                },
            }
            i = i + 1;
        }
        proof {
            let fresh = monitor.reported().skip(errors.len() as int);
            assert forall|h: Seq<u8>| #[trigger] lengths@.contains_key(h) implies is_block_file(
                tree,
                crate::blockhash::hex_text(h),
            ) by {
                let k = choose|k: int| 0 <= k < names.len() && (#[trigger] names[k])@ == h;
                assert(is_block_file(tree, names[k].name()));
            }
            assert forall|dir: Seq<char>, h: Seq<u8>|
                h.len() == crate::blockhash::BLAKE_HASH_SIZE_BYTES && #[trigger] block_file_in(
                    tree,
                    dir,
                    crate::blockhash::hex_text(h),
                ) implies (lengths@.contains_key(h) || reports_listing(fresh, dir) || reports_fault(
                tree,
                fresh,
                h,
            )) && (T::steady() && block_content(tree, h) is Some ==> lengths@.contains_key(h)) by {
                let name = crate::blockhash::hex_text(h);
                if names_hash(names, name) {
                    let k = choose|k: int| 0 <= k < names.len() && (#[trigger] names[k]).name() == name;
                    crate::blockhash::lemma_hex_text_injective(names[k]@, h);
                    assert(blocks@.contains(h));
                    let ordered = blocks.ordered();
                    let j = choose|j: int| 0 <= j < ordered.len() && (#[trigger] ordered[j])@ == h;
                    assert(lengths@.contains_key(ordered[j]@) || reports_fault(
                        tree,
                        fresh,
                        ordered[j]@,
                    ));
                } else {
                    assert(reports_listing(listing, dir));
                    assert(listing.len() > 0);
                }
            }
            if monitor.reported().len() == errors.len() {
                assert(fresh.len() == 0);
            }
        }
        Ok(lengths)
    }

    /// Returns the compressed size of a block, as it is stored.
    pub fn compressed_size(&self, hash: &BlockHash) -> (r: Result<u64, Error>)
        requires
            self.wf(),
        ensures
            match r {
                Ok(len) => self.tree().has_file(block_path(hash@)) ==> len
                    == self.tree().files[block_path(hash@)].len(),
                Err(e) => e matches Error::Transport { source } && (source.kind
                    == crate::transport::ErrorKind::NotFound ==> !self.tree().has_file(
                    block_path(hash@),
                )),
            },
            T::steady() ==> (r is Ok <==> self.tree().has_any(block_path(hash@))),
    {
        let relpath = block_relpath(hash);
        match self.transport.metadata(relpath.as_str()) {
            Ok(metadata) => Ok(metadata.len),
            Err(source) => Err(Error::Transport { source }),
        }
    }

    /// Deletes a block: what is held of it in memory first, then its file.
    /// On a steady transport the file goes if it is there.
    pub fn delete_block(&mut self, hash: &BlockHash) -> (r: Result<(), Error>)
        requires
            old(self).wf(),
        ensures
            final(self).wf(),
            !final(self).knows(hash@),
            final(self).stats_view() == old(self).stats_view(),
            match r {
                Ok(_) => final(self).tree() == old(self).tree().without_file(block_path(hash@)),
                Err(e) => e is Transport && final(self).tree() == old(self).tree(),
            },
            T::steady() ==> (r is Ok <==> old(self).tree().has_file(block_path(hash@))),
    {
        let key = hash.as_bytes();
        crate::cache::cache_pop(&mut self.cache, key);
        crate::cache::cache_pop(&mut self.exists, key);
        let relpath = block_relpath(hash);
        let ghost before = self.transport.tree();
        match self.transport.remove_file(relpath.as_str()) {
            Ok(_) => {
                proof {
                    assert forall|h: Seq<u8>|
                        h.len() == crate::blockhash::BLAKE_HASH_SIZE_BYTES && h != hash@
                            && block_present(before, h) implies block_present(self.tree(), h)
                        && block_content(self.tree(), h) == block_content(before, h) by {
                        if block_path(h) == block_path(hash@) {
                            lemma_block_path_injective(h, hash@);
                        }
                    }
                }
                Ok(())
            },
            Err(source) => Err(Error::Transport { source }),
        }
    }
}

} // verus!
