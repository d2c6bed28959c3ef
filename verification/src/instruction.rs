//! Client instructions, as carried from the controller to the database.

use vstd::prelude::*;
use crate::rule::Runner;

verus! {

/// An instruction from a client: plan a job, or register a rule.
#[derive(Debug)]
pub enum Instruction {
    JobSet { identifier: String, execution: i64 },
    RuleSet { identifier: String, pattern: String, runner: Runner },
}

} // verus!
