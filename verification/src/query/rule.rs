//! Handle Rule Set instructions.

use vstd::prelude::*;
use crate::codec::{spec_encode_rule, valid_rule};
use crate::framing::spec_frame;
use crate::rule::{Rule, RuleV, Runner};
use crate::storage::Storage;

verus! {

/// Handle Rule Set instructions.
pub struct RuleSetHandler {}

impl RuleSetHandler {
    /// Decide a Rule Set instruction: return the rule together with its log
    /// record; the caller persists the record, then commits the rule with
    /// [`Storage::set_rule`]. The instruction is refused exactly when one of
    /// the rule's strings is longer than 65535 bytes.
    pub fn handle(identifier: &String, pattern: &String, runner: &Runner, storage: &Storage) -> (r:
        Result<(Rule, Vec<u8>), ()>)
        requires
            storage.wf(),
        ensures
            ({
                let rv = RuleV { identifier: identifier@, pattern: pattern@, runner: runner@ };
                match r {
                    Ok(p) => p.0@ == rv && valid_rule(rv) && p.1@ == spec_frame(
                        spec_encode_rule(rv),
                    ),
                    Err(_) => !valid_rule(rv),
                }
            }),
    {
        let rule = Rule::new(identifier.clone(), pattern.clone(), runner.clone());
        match storage.prepare_rule(&rule) {
            Ok(bytes) => Ok((rule, bytes)),
            Err(_) => Err(()),
        }
    }
}

} // verus!
