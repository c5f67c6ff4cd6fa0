//! Sizes fixed at build time.

use vstd::prelude::*;

verus! {

/// Size in bytes of every page, on disk and in a buffer slot.
pub const PAGE_SIZE: usize = 4096;

/// Number of slots a buffer pool holds.
pub const BUFFER_POOL_SIZE: usize = 50;

} // verus!
