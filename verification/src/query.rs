//! Instruction handlers applying client instructions to the store.

pub mod job;
pub mod rule;
