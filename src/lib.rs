//! Per-key minimum / average / maximum aggregation over `key;value` lines.
//!
//! A byte view is cut into line-aligned chunks ([`partition`]), each chunk's
//! lines ([`scan`]) are split into key and value, the value is decoded into
//! tenths ([`parse`]) and summarized per key ([`record`]) in a shard map
//! ([`shard`], [`aggregate`]), and the shard maps are merged into one list
//! ordered by key ([`array`], [`merge`]). [`pipeline`] runs the whole of it
//! and shows that the chunking does not change the result.

pub mod aggregate;
pub mod array;
pub mod format;
pub mod merge;
pub mod parse;
pub mod partition;
pub mod pipeline;
pub mod record;
pub mod scan;
pub mod shard;
