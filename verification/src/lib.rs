//! Base-64 numerals, the snapshot text format and the request logic of a
//! history server that stores outline snapshots as deltas.

pub mod b64;
pub mod text;
pub mod snapshot;
pub mod history;
pub mod requests;
