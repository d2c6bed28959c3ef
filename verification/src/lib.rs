//! Kairoi: a verified core for a time-addressed job scheduling service.
//!
//! Clients register jobs (to run at a given instant) and rules (mapping
//! identifier prefixes to runner configurations). The database worker pairs
//! each due job with the best-matching rule, drives the job state machine
//! across runner results, and persists every mutation to an append-only log
//! before applying it in memory.

pub mod codec;
pub mod engine;
pub mod framing;
pub mod instruction;
pub mod job;
pub mod persistence;
pub mod query;
pub mod request;
pub mod rule;
pub mod storage;
pub mod store;
pub mod text;
pub mod time;
pub mod wire;

pub use job::{Job, Status};
pub use rule::{Rule, Runner};
