//! Verified core of a duplicate-file finder.
//!
//! Byte-identical files are found by a pipeline of progressively more
//! expensive stages: candidates are partitioned by size, re-partitioned by a
//! digest of a bounded prefix, re-partitioned by a digest of the whole
//! content, and finally confirmed by byte-for-byte comparison against the
//! first member of each bucket.  Every stage only shrinks or refines the
//! partition it was handed.  All grouping, pruning and confirmation logic is
//! verified here; directory walking and file reading are left to callers,
//! which hand the pipeline plain values.

pub mod digest;
pub mod record;
pub mod bucket;
pub mod verify;
pub mod filtering;
pub mod report;
pub mod pipeline;
