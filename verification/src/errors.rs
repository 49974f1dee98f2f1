//! Error taxonomy: load-time failures are fatal to a load attempt,
//! per-request failures are local to that request.

use vstd::prelude::*;

verus! {

/// Failure while opening a container and building its document handle.
/// No partial or degraded handle is ever returned alongside one of these.
#[derive(Clone, Copy, Debug, PartialEq, Eq, Structural)]
pub enum LoadError {
    /// The filesystem path does not exist (reported by the caller that
    /// performs the file read; the in-memory loader never produces it).
    NotFound,
    /// The bytes are not a valid archive, or an entry cannot be read.
    CorruptArchive,
    /// No package metadata file, or no navigation source, was found.
    MissingMetadata,
    /// The package or navigation XML failed to parse.
    MalformedXml,
}

/// Failure while resolving one logical path to an archive entry.
#[derive(Clone, Copy, Debug, PartialEq, Eq, Structural)]
pub enum ResolveError {
    /// No archive entry matches the normalized path.
    NotFound,
    /// A matching entry exists but could not be decompressed or read.
    ReadFailure,
}

} // verus!
