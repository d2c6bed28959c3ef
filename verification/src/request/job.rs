//! Build Job Set instructions from parsed arguments.

use vstd::prelude::*;
use crate::instruction::Instruction;
use crate::text::str_eq;
use crate::time::parse_dt;
use crate::time::parse_datetime;

verus! {

/// Build Job Set requests from parsed arguments.
pub struct JobSet {}

impl JobSet {
    /// Create a new Job Set builder.
    pub fn new() -> JobSet {
        JobSet {}
    }

    /// Build a Job Set instruction from the given arguments: the token `SET`,
    /// a job identifier, and an execution instant written `YYYY-MM-DD
    /// HH:MM:SS`. Return None when the arguments are not a Job Set request at
    /// all, and an error when they are but the instant cannot be read.
    pub fn build(&self, arguments: &Vec<String>) -> (r: Option<Result<Instruction, ()>>)
        ensures
            ({
                let args = arguments@;
                match r {
                    None => !(args.len() == 3 && args[0]@ == "SET"@),
                    Some(Ok(inst)) => args.len() == 3 && args[0]@ == "SET"@ && parse_dt(args[2]@)
                        is Some && match inst {
                        Instruction::JobSet { identifier, execution } => identifier@ == args[1]@
                            && execution == parse_dt(args[2]@).unwrap(),
                        _ => false,
                    },
                    Some(Err(_)) => args.len() == 3 && args[0]@ == "SET"@ && parse_dt(args[2]@)
                        is None,
                }
            }),
    {
        if arguments.len() == 3 && str_eq(arguments[0].as_str(), "SET") {
            match parse_datetime(arguments[2].as_str()) {
                Ok(execution) => Some(
                    Ok(Instruction::JobSet { identifier: arguments[1].clone(), execution }),
                ),
                Err(_) => Some(Err(())),
            }
        } else {
            None
        }
    }
}

} // verus!
