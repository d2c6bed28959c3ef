//! Job execution requests: the in-flight ledger between the database and the
//! processor.
//!
//! When a due job is triggered, the database hands the processor an execution
//! request carrying a fresh request identifier, and remembers which job the
//! request belongs to. When the processor reports a result, the request
//! identifier is matched back to its job; an unknown identifier is a stale or
//! duplicated report and is dropped silently.

use vstd::prelude::*;
use crate::rule::Runner;
use crate::text::str_eq;

verus! {

/// An execution request handed to the processor.
pub struct Request {
    pub identifier: u128,
    pub job_identifier: String,
    pub runner: Runner,
}

/// An execution response from the processor, tagged with the request
/// identifier it answers.
pub struct Response {
    pub identifier: u128,
    pub result: Result<(), ()>,
}

/// A matched execution result: the job it concerns and the processor's
/// verdict.
pub struct ExecutionResult {
    pub job: String,
    pub result: Result<(), ()>,
}

/// The in-flight ledger: request identifiers paired with the job each
/// execution request concerns.
pub struct Client {
    pub in_flight: Vec<(u128, String)>,
}

impl Client {
    /// The ledger invariant: request identifiers are distinct, and at most
    /// one in-flight request exists per job identifier.
    pub open spec fn wf(&self) -> bool {
        &&& forall|i: int, j: int|
            0 <= i < j < self.in_flight@.len() ==> (#[trigger] self.in_flight@[i]).0 != (
            #[trigger] self.in_flight@[j]).0
        &&& forall|i: int, j: int|
            0 <= i < j < self.in_flight@.len() ==> (#[trigger] self.in_flight@[i]).1@ != (
            #[trigger] self.in_flight@[j]).1@
    }

    /// Create a new client with nothing in flight.
    pub fn new() -> (r: Client)
        ensures
            r.wf(),
            r.in_flight@.len() == 0,
    {
        Client { in_flight: Vec::new() }
    }

    /// True when the given request identifier is already in flight.
    pub fn has_request(&self, identifier: u128) -> (r: bool)
        ensures
            r == exists|i: int|
                0 <= i < self.in_flight@.len() && (#[trigger] self.in_flight@[i]).0 == identifier,
    {
        let mut i: usize = 0;
        while i < self.in_flight.len()
            invariant
                0 <= i <= self.in_flight@.len(),
                forall|k: int| 0 <= k < i ==> (#[trigger] self.in_flight@[k]).0 != identifier,
            decreases self.in_flight@.len() - i,
        {
            if self.in_flight[i].0 == identifier {
                return true;
            }
            i = i + 1;
        }
        false
    }

    /// True when an execution request for the given job is already in
    /// flight.
    pub fn has_job(&self, job: &str) -> (r: bool)
        ensures
            r == exists|i: int|
                0 <= i < self.in_flight@.len() && (#[trigger] self.in_flight@[i]).1@ == job@,
    {
        let mut i: usize = 0;
        while i < self.in_flight.len()
            invariant
                0 <= i <= self.in_flight@.len(),
                forall|k: int| 0 <= k < i ==> (#[trigger] self.in_flight@[k]).1@ != job@,
            decreases self.in_flight@.len() - i,
        {
            if str_eq(self.in_flight[i].1.as_str(), job) {
                return true;
            }
            i = i + 1;
        }
        false
    }

    /// Record an execution request for the job with the given identifier on
    /// the given runner, and return the request to send to the processor.
    /// The request identifier must be fresh and the job must have no request
    /// in flight: at most one request per job identifier exists at any
    /// instant.
    pub fn trigger(&mut self, job: String, runner: Runner, request_id: u128) -> (r: Request)
        requires
            old(self).wf(),
            !exists|i: int|
                0 <= i < old(self).in_flight@.len() && (#[trigger] old(self).in_flight@[i]).0
                    == request_id,
            !exists|i: int|
                0 <= i < old(self).in_flight@.len() && (#[trigger] old(self).in_flight@[i]).1@
                    == job@,
        ensures
            final(self).wf(),
            final(self).in_flight@ == old(self).in_flight@.push((request_id, job)),
            r.identifier == request_id,
            r.job_identifier@ == job@,
            r.runner == runner,
    {
        let request = Request {
            identifier: request_id,
            job_identifier: job.clone(),
            runner: runner.clone(),
        };
        self.in_flight.push((request_id, job));
        proof {
            let v = self.in_flight@;
            assert forall|i: int, j: int| 0 <= i < j < v.len() implies (#[trigger] v[i]).0 != (
            #[trigger] v[j]).0 && v[i].1@ != v[j].1@ by {
                if j == v.len() - 1 {
                    assert(v[i] == old(self).in_flight@[i]);
                } else {
                    assert(v[i] == old(self).in_flight@[i] && v[j] == old(self).in_flight@[j]);
                }
            }
        }
        request
    }

    /// Match an execution response to its in-flight request. Return the
    /// matched result, removing the request from the ledger; an unknown
    /// request identifier is dropped silently.
    pub fn match_result(&mut self, response: Response) -> (r: Option<ExecutionResult>)
        requires
            old(self).wf(),
        ensures
            final(self).wf(),
            r is Some <==> exists|i: int|
                0 <= i < old(self).in_flight@.len() && (#[trigger] old(self).in_flight@[i]).0
                    == response.identifier,
            r is Some ==> {
                let i = choose|i: int|
                    0 <= i < old(self).in_flight@.len() && (#[trigger] old(self).in_flight@[i]).0
                        == response.identifier;
                &&& r.unwrap().job@ == old(self).in_flight@[i].1@
                &&& r.unwrap().result == response.result
                &&& final(self).in_flight@ == old(self).in_flight@.remove(i)
            },
            r is None ==> final(self).in_flight@ == old(self).in_flight@,
    {
        let ghost v = self.in_flight@;
        let mut i: usize = 0;
        while i < self.in_flight.len()
            invariant
                v == self.in_flight@,
                v == old(self).in_flight@,
                old(self).wf(),
                0 <= i <= v.len(),
                forall|k: int| 0 <= k < i ==> (#[trigger] v[k]).0 != response.identifier,
            decreases v.len() - i,
        {
            if self.in_flight[i].0 == response.identifier {
                let ghost k = i as int;
                let entry = self.in_flight.remove(i);
                proof {
                    let kc = choose|i: int|
                        0 <= i < v.len() && (#[trigger] v[i]).0 == response.identifier;
                    assert(kc == k);
                    v.remove_ensures(k);
                    let v2 = self.in_flight@;
                    assert forall|a: int, b: int| 0 <= a < b < v2.len() implies (
                    #[trigger] v2[a]).0 != (#[trigger] v2[b]).0 && v2[a].1@ != v2[b].1@ by {
                        let aa = if a < k {
                            a
                        } else {
                            a + 1
                        };
                        let bb = if b < k {
                            b
                        } else {
                            b + 1
                        };
                        assert(v2[a] == v[aa] && v2[b] == v[bb]);
                    }
                }
                return Some(ExecutionResult { job: entry.1, result: response.result });
            }
            i = i + 1;
        }
        None
    }
}

/// Law: at any instant, at most one in-flight execution request exists per
/// job identifier — two distinct ledger entries concern distinct jobs.
pub proof fn lemma_at_most_one_in_flight(c: &Client, i: int, j: int)
    requires
        c.wf(),
        0 <= i < c.in_flight@.len(),
        0 <= j < c.in_flight@.len(),
        i != j,
    ensures
        c.in_flight@[i].1@ != c.in_flight@[j].1@,
{
    if i < j {
        assert(c.in_flight@[i].1@ != c.in_flight@[j].1@);
    } else {
        assert(c.in_flight@[j].1@ != c.in_flight@[i].1@);
    }
}

/// Relies on uuid::Uuid::new_v4: a fresh version-4 identifier drawn from the
/// process's random source. Nothing is assumed of the value: the caller
/// checks it against the in-flight ledger before using it.
#[verifier::external_body]
pub fn fresh_request_id() -> u128 {
    uuid::Uuid::new_v4().as_u128()
}

} // verus!
