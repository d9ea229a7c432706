//! The part of the DAG that is held in memory.
pub mod accept;
pub mod evict;
pub mod history;
pub mod laws;
pub mod lookup_laws;
pub mod memory_laws;
pub mod model;
pub mod ranges;
pub mod read;
pub mod recover;
pub mod restart;
pub mod source;
pub mod state;
