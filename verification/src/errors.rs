//! Errors of the backup store.

use vstd::prelude::*;
use vstd::string::StringExecFns;
use crate::apath::Apath;
use crate::bandid::BandId;
use crate::blockhash::BlockHash;
use crate::index::Address;
use crate::transport::TransportError;

verus! {

/// What can go wrong in this library.
#[derive(Debug, PartialEq, Eq)]
#[allow(inconsistent_fields)]
pub enum Error {
    /// The content of a block does not have the hash it is stored under.
    BlockCorrupt { hash: BlockHash },
    /// An address points beyond the end of its block.
    AddressTooLong { address: Address, actual_len: usize },
    /// A block could not be written.
    WriteBlock { hash: String, source: TransportError },
    /// A block could not be read.
    ReadBlock { hash: String, source: TransportError },
    /// A block that an index refers to is not there.
    BlockMissing { block_hash: BlockHash },
    /// The blocks could not be listed.
    ListBlocks { source: TransportError },
    /// There is no archive header.
    NotAnArchive,
    /// The archive is of a version that is not supported.
    UnsupportedArchiveVersion { version: String },
    /// The band is of a version that is not supported.
    UnsupportedBandVersion { band_id: BandId, version: String },
    /// The band needs features that are not supported.
    UnsupportedBandFormatFlags { band_id: BandId, unsupported_flags: Vec<String> },
    /// The archive has no bands.
    ArchiveEmpty,
    /// The directory for a new archive holds something.
    NewArchiveDirectoryNotEmpty,
    /// A band could not be created.
    CreateBand { source: TransportError },
    /// The directory of a new archive could not be created.
    CreateArchiveDirectory { source: TransportError },
    /// The band has no head.
    BandHeadMissing { band_id: BandId },
    /// The band is not closed.
    BandIncomplete { band_id: BandId },
    /// Two directories stand for the same band.
    DuplicateBandDirectory { band_id: BandId },
    /// The last band is incomplete and may be in use.
    DeleteWithIncompleteBackup { band_id: BandId },
    /// The archive was changed while blocks were being chosen for deletion.
    DeleteWithConcurrentActivity,
    /// A garbage collection holds the archive.
    GarbageCollectionLockHeld,
    /// The content of a file does not have the hash that its entry gives.
    FileCorrupt { band_id: BandId, apath: Apath, expected_hex: String, actual_hex: String },
    /// The bands could not be listed.
    ListBands { source: TransportError },
    /// A hunk of an index could not be written.
    WriteIndex { path: String, source: TransportError },
    /// A hunk of an index could not be read.
    ReadIndex { path: String, source: TransportError },
    /// Bytes could not be compressed or decompressed.
    Compression { message: String },
    /// A pattern is no glob.
    InvalidGlob { message: String },
    /// The storage failed.
    Transport { source: TransportError },
}

impl Error {
    /// The message of the error.
    pub open spec fn message(&self) -> Seq<char> {
        match self {
            Error::BlockCorrupt { hash } => "Block file "@ + hash.name() + " corrupt"@,
            Error::AddressTooLong { address, actual_len } => "Address in block "@
                + address.hash.name() + " extends beyond decompressed block length "@
                + crate::bandid::decimal_text(*actual_len as nat),
            Error::WriteBlock { hash, source } => "Failed to write block "@ + hash@,
            Error::ReadBlock { hash, source } => "Failed to read block "@ + hash@,
            Error::BlockMissing { block_hash } => "Block "@ + block_hash.name() + " is missing"@,
            Error::ListBlocks { source } => "Failed to list block files"@,
            Error::NotAnArchive => "Not a Conserve archive"@,
            Error::UnsupportedArchiveVersion { version } => "Unsupported archive version "@
                + version@,
            Error::UnsupportedBandVersion { band_id, version } => "Unsupported band version "@
                + version@ + " in "@ + band_id.name(),
            Error::UnsupportedBandFormatFlags { band_id, unsupported_flags } =>
                "Unsupported band format flags in "@ + band_id.name(),
            Error::ArchiveEmpty => "Archive has no bands"@,
            Error::NewArchiveDirectoryNotEmpty => "Directory for new archive is not empty"@,
            Error::CreateBand { source } => "Failed to create band"@,
            Error::CreateArchiveDirectory { source } => "Failed to create archive directory"@,
            Error::BandHeadMissing { band_id } => "Band "@ + band_id.name() + " head file missing"@,
            Error::BandIncomplete { band_id } => "Band "@ + band_id.name() + " is incomplete"@,
            Error::DuplicateBandDirectory { band_id } => "Duplicated band directory for "@
                + band_id.name(),
            Error::DeleteWithIncompleteBackup { band_id } =>
                "Can't delete blocks because the last band ("@ + band_id.name()
                + ") is incomplete and may be in use"@,
            Error::DeleteWithConcurrentActivity =>
                "Can't continue with deletion because the archive was changed by another process"@,
            Error::GarbageCollectionLockHeld => "Archive is locked for garbage collection"@,
            Error::FileCorrupt { band_id, apath, expected_hex, actual_hex } => "Expected hash "@
                + expected_hex@ + " but read "@ + actual_hex@ + " for a file in band "@
                + band_id.name(),
            Error::ListBands { source } => "Failed to list bands"@,
            Error::WriteIndex { path, source } => "Failed to write index hunk "@ + path@,
            Error::ReadIndex { path, source } => "Failed to read index hunk "@ + path@,
            Error::Compression { message } => message@,
            Error::InvalidGlob { message } => message@,
            Error::Transport { source } => source.message@,
        }
    }

    /// The message of the error, as text.
    pub fn to_string(&self) -> (r: String)
        ensures
            r@ == self.message(),
    {
        let mut out = String::new();
        match self {
            Error::BlockCorrupt { hash } => {
                out.append("Block file ");
                out.append(hash.to_string().as_str());
                out.append(" corrupt");
            },
            Error::AddressTooLong { address, actual_len } => {
                out.append("Address in block ");
                out.append(address.hash.to_string().as_str());
                out.append(" extends beyond decompressed block length ");
                crate::bandid::push_decimal(&mut out, *actual_len as u64);
            },
            Error::WriteBlock { hash, source } => {
                out.append("Failed to write block ");
                out.append(hash.as_str());
            },
            Error::ReadBlock { hash, source } => {
                out.append("Failed to read block ");
                out.append(hash.as_str());
            },
            Error::BlockMissing { block_hash } => {
                out.append("Block ");
                out.append(block_hash.to_string().as_str());
                out.append(" is missing");
            },
            Error::ListBlocks { source } => {
                out.append("Failed to list block files");
            },
            Error::NotAnArchive => {
                out.append("Not a Conserve archive");
            },
            Error::UnsupportedArchiveVersion { version } => {
                out.append("Unsupported archive version ");
                out.append(version.as_str());
            },
            Error::UnsupportedBandVersion { band_id, version } => {
                out.append("Unsupported band version ");
                out.append(version.as_str());
                out.append(" in ");
                out.append(band_id.to_string().as_str());
            },
            Error::UnsupportedBandFormatFlags { band_id, unsupported_flags } => {
                out.append("Unsupported band format flags in ");
                out.append(band_id.to_string().as_str());
            },
            Error::ArchiveEmpty => {
                out.append("Archive has no bands");
            },
            Error::NewArchiveDirectoryNotEmpty => {
                out.append("Directory for new archive is not empty");
            },
            Error::CreateBand { source } => {
                out.append("Failed to create band");
            },
            Error::CreateArchiveDirectory { source } => {
                out.append("Failed to create archive directory");
            },
            Error::BandHeadMissing { band_id } => {
                out.append("Band ");
                out.append(band_id.to_string().as_str());
                out.append(" head file missing");
            },
            Error::BandIncomplete { band_id } => {
                out.append("Band ");
                out.append(band_id.to_string().as_str());
                out.append(" is incomplete");
            },
            Error::DuplicateBandDirectory { band_id } => {
                out.append("Duplicated band directory for ");
                out.append(band_id.to_string().as_str());
            },
            Error::DeleteWithIncompleteBackup { band_id } => {
                out.append("Can't delete blocks because the last band (");
                out.append(band_id.to_string().as_str());
                out.append(") is incomplete and may be in use");
            },
            Error::DeleteWithConcurrentActivity => {
                out.append(
                    "Can't continue with deletion because the archive was changed by another process",
                );
            },
            Error::GarbageCollectionLockHeld => {
                out.append("Archive is locked for garbage collection");
            },
            Error::FileCorrupt { band_id, apath, expected_hex, actual_hex } => {
                out.append("Expected hash ");
                out.append(expected_hex.as_str());
                out.append(" but read ");
                out.append(actual_hex.as_str());
                out.append(" for a file in band ");
                out.append(band_id.to_string().as_str());
            },
            Error::ListBands { source } => {
                out.append("Failed to list bands");
            },
            Error::WriteIndex { path, source } => {
                out.append("Failed to write index hunk ");
                out.append(path.as_str());
            },
            Error::ReadIndex { path, source } => {
                out.append("Failed to read index hunk ");
                out.append(path.as_str());
            },
            Error::Compression { message } => {
                out.append(message.as_str());
            },
            Error::InvalidGlob { message } => {
                out.append(message.as_str());
            },
            Error::Transport { source } => {
                out.append(source.message.as_str());
            },
        }
        assert(out@ =~= self.message());
        out
    }
}

} // verus!
