//! Discovery and ingestion of version-control repositories.
//!
//! The library holds the verified core of the pipeline: the text parsing of
//! inspector output, the data model of inspection outcomes, the filesystem
//! walker's decision logic, the dedup bookkeeping of the pipeline stages,
//! and the last-write-wins model of the persistence sink.

pub mod channel;
pub mod data;
pub mod fs;
pub mod git;
pub mod os;
pub mod pipeline;
pub mod sets;
pub mod store;
pub mod text;
