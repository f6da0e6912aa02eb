//! Verified core of a blob-fetching utility: paginated listing accumulation,
//! latest-object selection, chunked content retrieval, remote-name to local-path
//! mapping, text validation before materialization, and cache-clean planning.
//!
//! All remote and filesystem I/O lives outside this crate; the functions here
//! work on plain values (byte vectors, integers) handed in by that glue code.

pub mod cleaner;
pub mod content;
pub mod errors;
pub mod lister;
pub mod model;
pub mod path_map;
pub mod pipeline;
pub mod selector;

pub use model::Blob;
pub use model::BlobEntry;
pub use model::BlobEntrySpec;
pub use model::BlobSpec;
