//! Builders turning parsed request tokens into instructions.

pub mod job;
pub mod rule;
