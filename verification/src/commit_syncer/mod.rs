//! Catching up on commits that a quorum of the others has made.
//!
//! An authority that has fallen behind fetches ranges of commits in parallel.
//! Commits are chained by their digests, so a quorum of votes for the last one
//! certifies all of them.
pub mod fast;
pub mod fast_laws;
pub mod laws;
pub mod regular;
pub mod shared;
pub mod verify;
pub mod wire;
