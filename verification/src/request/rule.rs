//! Build Rule Set instructions from parsed arguments.

use vstd::prelude::*;
use crate::instruction::Instruction;
use crate::rule::Runner;
use crate::text::str_eq;

verus! {

/// Build Rule Set requests from parsed arguments.
pub struct RuleSetBuilder {}

impl RuleSetBuilder {
    /// Create a new Rule Set builder.
    pub fn new() -> RuleSetBuilder {
        RuleSetBuilder {}
    }

    /// Build a Rule Set instruction from the given arguments: the tokens
    /// `RULE SET`, a rule identifier, a pattern, then either `shell` and a
    /// command, or `amqp` and a data source name, an exchange and a routing
    /// key. Return None when the arguments do not start with `RULE SET`, and
    /// an error when they do but the rest is malformed.
    pub fn build(&self, arguments: &Vec<String>) -> (r: Option<Result<Instruction, ()>>)
        ensures
            ({
                let args = arguments@;
                let shaped = args.len() >= 2 && args[0]@ == "RULE"@ && args[1]@ == "SET"@;
                match r {
                    None => !shaped,
                    Some(Ok(inst)) => shaped && args.len() >= 5 && match inst {
                        Instruction::RuleSet { identifier, pattern, runner } => {
                            &&& identifier@ == args[2]@
                            &&& pattern@ == args[3]@
                            &&& if args[4]@ == "shell"@ {
                                args.len() == 6 && match runner {
                                    Runner::Shell { command } => command@ == args[5]@,
                                    _ => false,
                                }
                            } else {
                                args[4]@ == "amqp"@ && args.len() == 8 && match runner {
                                    Runner::Amqp { dsn, exchange, routing_key } => dsn@ == args[5]@
                                        && exchange@ == args[6]@ && routing_key@ == args[7]@,
                                    _ => false,
                                }
                            }
                        },
                        _ => false,
                    },
                    Some(Err(_)) => shaped && (args.len() < 5 || (args[4]@ == "shell"@
                        && args.len() != 6) || (args[4]@ == "amqp"@ && args.len() != 8) || (
                    args[4]@ != "shell"@ && args[4]@ != "amqp"@)),
                }
            }),
    {
        if arguments.len() < 2 || !str_eq(arguments[0].as_str(), "RULE") || !str_eq(
            arguments[1].as_str(),
            "SET",
        ) {
            return None;
        }
        if arguments.len() < 5 {
            return Some(Err(()));
        }
        if str_eq(arguments[4].as_str(), "shell") {
            if arguments.len() == 6 {
                Some(
                    Ok(
                        Instruction::RuleSet {
                            identifier: arguments[2].clone(),
                            pattern: arguments[3].clone(),
                            runner: Runner::Shell { command: arguments[5].clone() },
                        },
                    ),
                )
            } else {
                Some(Err(()))
            }
        } else if str_eq(arguments[4].as_str(), "amqp") {
            if arguments.len() == 8 {
                Some(
                    Ok(
                        Instruction::RuleSet {
                            identifier: arguments[2].clone(),
                            pattern: arguments[3].clone(),
                            runner: Runner::Amqp {
                                dsn: arguments[5].clone(),
                                exchange: arguments[6].clone(),
                                routing_key: arguments[7].clone(),
                            },
                        },
                    ),
                )
            } else {
                Some(Err(()))
            }
        } else {
            Some(Err(()))
        }
    }
}

} // verus!
