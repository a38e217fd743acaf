//! Resolution of content-addressed paths into output units, planning of how
//! those units are written out, and the decisions around ingestion and peer
//! lookup.

pub mod error;
pub mod path;
pub mod resolve;
pub mod materialize;
pub mod stream;
pub mod walker;
pub mod ingest;
pub mod peer;
