//! Rules, pairing identifier prefixes with runner configurations.

use vstd::prelude::*;
use vstd::utf8::encode_utf8;

verus! {

/// A runner configuration: either a shell command, or an AMQP publication
/// described by a data source name, an exchange and a routing key.
#[derive(Debug, PartialEq)]
pub enum Runner {
    Shell { command: String },
    Amqp { dsn: String, exchange: String, routing_key: String },
}

/// Rules associate String patterns to configured Runners. A pattern is a
/// simple String (no special character) matching all job identifiers starting
/// with it, byte-wise. For example, the pattern "test." matches the job
/// "test.0", but not the job "test0".
#[derive(Debug, PartialEq)]
pub struct Rule {
    pub identifier: String,
    pub pattern: String,
    pub runner: Runner,
}

impl Clone for Runner {
    fn clone(&self) -> (r: Self)
        ensures
            r == *self,
    {
        match self {
            Runner::Shell { command } => Runner::Shell { command: command.clone() },
            Runner::Amqp { dsn, exchange, routing_key } => Runner::Amqp {
                dsn: dsn.clone(),
                exchange: exchange.clone(),
                routing_key: routing_key.clone(),
            },
        }
    }
}

impl Clone for Rule {
    fn clone(&self) -> (r: Self)
        ensures
            r == *self,
    {
        Rule {
            identifier: self.identifier.clone(),
            pattern: self.pattern.clone(),
            runner: self.runner.clone(),
        }
    }
}

/// The mathematical model of a runner configuration.
pub ghost enum RunnerV {
    Shell { command: Seq<char> },
    Amqp { dsn: Seq<char>, exchange: Seq<char>, routing_key: Seq<char> },
}

/// The mathematical model of a rule.
pub ghost struct RuleV {
    pub identifier: Seq<char>,
    pub pattern: Seq<char>,
    pub runner: RunnerV,
}

impl View for Runner {
    type V = RunnerV;

    open spec fn view(&self) -> RunnerV {
        match self {
            Runner::Shell { command } => RunnerV::Shell { command: command@ },
            Runner::Amqp { dsn, exchange, routing_key } => RunnerV::Amqp {
                dsn: dsn@,
                exchange: exchange@,
                routing_key: routing_key@,
            },
        }
    }
}

impl View for Rule {
    type V = RuleV;

    open spec fn view(&self) -> RuleV {
        RuleV { identifier: self.identifier@, pattern: self.pattern@, runner: self.runner@ }
    }
}

/// True when a rule with the given pattern supports a job with the given
/// identifier: the UTF-8 bytes of the pattern are a prefix of the UTF-8 bytes
/// of the identifier. The empty pattern supports every job.
pub open spec fn pattern_supports(pattern: Seq<char>, job: Seq<char>) -> bool {
    encode_utf8(pattern).is_prefix_of(encode_utf8(job))
}

impl Rule {
    /// Create a new rule.
    pub fn new(identifier: String, pattern: String, runner: Runner) -> (r: Rule)
        ensures
            r.identifier@ == identifier@,
            r.pattern@ == pattern@,
            r.runner == runner,
    {
        Rule { identifier, pattern, runner }
    }

    /// Check if the rule supports the given job identifier. Return the weight
    /// of this rule: the byte length of its pattern. The higher the weight of
    /// a rule is, the higher this rule is prioritized when pairing. A rule
    /// with an empty pattern supports every job, with weight 0.
    pub fn supports(&self, job: &String) -> (r: Option<usize>)
        ensures
            r is Some <==> pattern_supports(self.pattern@, job@),
            r is Some ==> r.unwrap() == encode_utf8(self.pattern@).len(),
    {
        let pattern_bytes = self.pattern.as_str().as_bytes();
        let job_bytes = job.as_str().as_bytes();
        if pattern_bytes.len() > job_bytes.len() {
            proof {
                assert(!encode_utf8(self.pattern@).is_prefix_of(encode_utf8(job@)));
            }
            return None;
        }
        let mut i: usize = 0;
        while i < pattern_bytes.len()
            invariant
                0 <= i <= pattern_bytes.len() <= job_bytes.len(),
                pattern_bytes@ == encode_utf8(self.pattern@),
                job_bytes@ == encode_utf8(job@),
                forall|k: int| 0 <= k < i ==> pattern_bytes@[k] == job_bytes@[k],
            decreases pattern_bytes.len() - i,
        {
            if *vstd::slice::slice_index_get(pattern_bytes, i)
                != *vstd::slice::slice_index_get(job_bytes, i) {
                proof {
                    assert(!encode_utf8(self.pattern@).is_prefix_of(encode_utf8(job@)));
                }
                return None;
            }
            i = i + 1;
        }
        proof {
            assert(encode_utf8(self.pattern@)
                =~= encode_utf8(job@).subrange(0, encode_utf8(self.pattern@).len() as int));
        }
        Some(pattern_bytes.len())
    }

    /// Get the identifier.
    pub fn get_identifier(&self) -> (r: &String)
        ensures
            r@ == self.identifier@,
    {
        &self.identifier
    }

    /// Get the pattern.
    pub fn get_pattern(&self) -> (r: &String)
        ensures
            r@ == self.pattern@,
    {
        &self.pattern
    }

    /// Get the runner.
    pub fn get_runner(&self) -> (r: &Runner)
        ensures
            r == self.runner,
    {
        &self.runner
    }
}

} // verus!
