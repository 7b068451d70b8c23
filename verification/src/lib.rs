//! Reading, writing and merging of SAF (site allele frequency) datasets.
//!
//! A SAF dataset is stored as three binary streams sharing an 8-byte magic
//! tag: an index (contig names, site counts and offsets), a compressed
//! stream of per-site positions, and a compressed stream of per-site
//! likelihood values. This crate decodes and encodes those streams and
//! aligns several datasets on the sites they share.

pub mod error;
pub mod merge;
pub mod saf;
pub mod utils;

pub use error::SafError;
