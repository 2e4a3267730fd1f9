//! Error kinds surfaced by the archive code.

use vstd::prelude::*;

verus! {

/// Why the free-space allocator refused a request.
#[derive(Clone, Copy, Debug, PartialEq, Eq, Structural)]
pub enum AllocError {
    /// No free run is long enough and the open tail cannot grow that far.
    OutOfSpace,
    /// The range handed back overlaps bytes that are already free.
    InvalidFree,
}

/// Errors returned by the archive builder.
#[derive(Clone, Copy, Debug, PartialEq, Eq, Structural)]
pub enum GrufError {
    /// The requested path is not present in the source archive.
    EntryNotFound,
    /// The archive's major version is not one the builder can write.
    InvalidVersion,
    /// A path cannot be written in Windows-1252, or a size or offset does
    /// not fit the 32-bit field it is stored in.
    Serialization,
    /// The free-space allocator refused the request.
    Allocator(AllocError),
    /// The underlying codec or sink reported a failure.
    Io,
}

} // verus!
