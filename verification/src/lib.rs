//! An embedded key-value store built as a log-structured merge tree over a
//! paged storage substrate with a buffer pool.

pub mod bufferpool;
pub mod bytes;
pub mod constants;
pub mod error;
pub mod lsm;
pub mod page;
pub mod pagefile;
pub mod serialize;
pub mod serialpages;
pub mod slotmap;
pub mod tuple;
