//! The error kinds that a tree operation can report.

use vstd::prelude::*;

verus! {

/// Why a tree operation failed.
///
/// No error is recovered locally: each aborts the operation that raised it,
/// and the store keeps whatever its commit discipline provides.
#[derive(Clone, Copy, Debug, PartialEq, Eq, Structural)]
pub enum TreeError {
    /// Traversal descended past the configured maximum depth.
    DepthExceeded,
    /// A structural invariant of the stored tree was violated: a missing
    /// child, or a data node found where a branch or leaf belongs.
    Corrupt,
    /// Two keys in one insert batch are identical.
    DuplicateKey,
    /// An insert was called with empty batches, or with key and value
    /// batches of different lengths.
    EmptyBatch,
    /// The previous root handed to an insert does not resolve in the store.
    RootNotFound,
}

} // verus!
