//! An epoch-indexed cache of storage blobs, filled from a remote source, and a
//! scanner that picks the storage slices whose derived quality meets a mining
//! task's threshold.

pub mod line_metadata;
pub mod scan;
pub mod types;
pub mod word;

pub use line_metadata::{EpochEntry, FetchStep, LineMetadata};
pub use types::{BlobInfo, LineCandidate, SampleTask, SliceIndex};
pub use word::{bytes_le, Word256};
