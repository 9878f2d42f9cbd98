//! A container file format: a set of files and directory trees is packed into
//! one archive (header plus payload region) and later reconstructed from it.
//!
//! The archive layout, with every multi-byte integer little-endian:
//! one version byte; an 8-byte header size; an 8-byte tag count followed by
//! the tags, each a sized string key and a sized string value; an 8-byte entry
//! count followed by the entries, each an 8-byte payload size and a sized
//! string relative path; then the payload region, the entries' raw bytes
//! concatenated in table order.
//!
//! This crate holds the format itself: the sized-string codec, the header
//! codec, the chunked transfer engine and the pack/unpack/extract operations,
//! all over in-memory byte containers. Opening, walking and writing real files
//! is left to the caller, who hands the library paths, sizes and contents as
//! plain values.

use vstd::prelude::*;

pub mod archive;
pub mod codec;
pub mod header;
pub mod paths;
pub mod transfer;

verus! {

/// The archive format version this crate writes, and the only one it reads.
pub const ARCHIVE_VERSION: u8 = 1;

/// True of the version bytes this crate can parse. A version byte outside
/// this set makes a container unreadable here: the header cannot be trusted.
pub open spec fn spec_version_supported(v: u8) -> bool {
    v == ARCHIVE_VERSION
}

/// Whether a container with version byte `v` can be parsed by this crate.
pub fn version_supported(v: u8) -> (r: bool)
    ensures
        r == spec_version_supported(v),
{
    v == ARCHIVE_VERSION
}

/// Why an archive operation failed.
///
/// Per-file problems during packing (an unreadable file, a path that is not
/// text) are the caller's to skip and report; these errors are the structural
/// ones, after which the rest of a container cannot be trusted.
#[derive(Clone, Copy, PartialEq, Eq, Structural, Debug)]
pub enum ArchiveError {
    /// The container's version byte is outside the supported set.
    FormatVersionUnsupported { found: u8 },
    /// The container ends before a declared header field does.
    TruncatedOrCorruptHeader,
    /// An entry's recorded payload range reaches past the end of the
    /// container.
    PayloadOutOfBounds,
}

} // verus!
