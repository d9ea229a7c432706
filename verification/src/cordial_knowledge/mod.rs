//! Who knows which headers and shards.
pub mod connection;
pub mod global;
pub mod laws;
pub mod messages;
pub mod peer_laws;
pub mod unknown;
