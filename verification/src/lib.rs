//! A horizontally sharded store of attendee relationship records.
//!
//! A coordinator owns a registry of data shards; each shard keeps a keyed
//! map of attendee records and applies the join/invite/accept/leave state
//! machine per write. Scan results that are too large for one reply cross
//! the wire as fixed-size byte chunks and are reassembled and paged on the
//! coordinator side.

pub mod api_error;
pub mod attendee_model;
pub mod chunk;
pub mod codec;
pub mod keymap;
pub mod paging;
pub mod registry;
pub mod store;
