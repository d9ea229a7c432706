//! Fetching headers that are missing.
pub mod commands;
pub mod inflight;
pub mod laws;
pub mod own;
pub mod periodic;
pub mod recent;
pub mod verify;
