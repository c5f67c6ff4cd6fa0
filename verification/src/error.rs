//! The error kinds that storage operations report.

use vstd::prelude::*;

verus! {

/// Why a storage operation failed.
#[derive(Clone, Copy, Debug, PartialEq, Eq, Structural)]
pub enum StoreError {
    /// A page could not be read: it lies beyond the end of its file and may
    /// not be created.
    Io,
    /// Stored bytes do not follow the format they should be in.
    Corruption,
    /// Every slot of the buffer pool is pinned, so none can be reused.
    Exhaustion,
    /// The caller broke a documented precondition.
    InvalidArgument,
}

} // verus!
