//! Core of an incremental asset-build engine: a paged memory substrate, an
//! interner, a memoizing request tracker and the asset graph builder.
pub mod asset_graph;
pub mod asset_request;
pub mod bytes;
pub mod intern;
pub mod memory;
pub mod path;
pub mod request_tracker;
pub mod types;
pub mod worker_init;
