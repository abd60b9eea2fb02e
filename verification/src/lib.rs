//! Fork-choice core for a proof-of-stake beacon chain: the LMD-GHOST rule with
//! Casper FFG filtering.
//!
//! The crate keeps a flat array of block nodes (the proto-array engine), a
//! per-validator latest-message table (the vote tracker) and the pair of
//! (justified, finalized) checkpoints that drives them (the checkpoint
//! manager). Given a stream of observed blocks and attestations it answers:
//! which block is the current head of the canonical chain?

pub mod checkpoints;
pub mod codec;
pub mod engine;
pub mod error;
pub mod fork_choice;
pub mod laws;
pub mod node;
pub mod root;
pub mod votes;

pub use root::Root;
