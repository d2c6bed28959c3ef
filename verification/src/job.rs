//! Jobs and their execution state machine.
//!
//! A job is addressed by its identifier and carries the instant at which it
//! must run, expressed in nanoseconds since the Unix epoch (UTC), together
//! with its current status. The status may only evolve along the transitions
//! listed in [`allowed_transition`].

use vstd::prelude::*;

verus! {

/// The status of a job, either Planned, Triggered, Executed or Failed.
///
/// - Planned: the job is planned for execution.
/// - Triggered: an execution request has been handed to the processor and no
///   result has been applied yet.
/// - Executed: the processor has confirmed that the job ran successfully.
/// - Failed: the job could not be paired with a rule, or the processor
///   reported a failure.
#[derive(Clone, Copy, Debug, PartialEq, Eq, Structural)]
pub enum Status {
    Planned,
    Triggered,
    Executed,
    Failed,
}

/// The transitions that the job state machine allows.
///
/// Planned jobs are either dispatched (Triggered) or abandoned for want of a
/// matching rule (Failed). Triggered jobs settle on the processor's verdict.
/// Terminal jobs (Executed, Failed) can only be re-planned by a client, which
/// may also re-plan a Planned job at a new instant. A Triggered job cannot be
/// overwritten.
pub open spec fn allowed_transition(from: Status, to: Status) -> bool {
    match (from, to) {
        (Status::Planned, Status::Triggered) => true,
        (Status::Planned, Status::Failed) => true,
        (Status::Planned, Status::Planned) => true,
        (Status::Triggered, Status::Executed) => true,
        (Status::Triggered, Status::Failed) => true,
        (Status::Executed, Status::Planned) => true,
        (Status::Failed, Status::Planned) => true,
        _ => false,
    }
}

/// A job, executed at some point in time.
///
/// `execution` is the planned execution instant in nanoseconds since the Unix
/// epoch (UTC).
#[derive(Debug, PartialEq)]
pub struct Job {
    pub identifier: String,
    pub execution: i64,
    pub status: Status,
}

/// The mathematical model of a job: its identifier as a sequence of
/// characters, its execution instant, and its status.
pub ghost struct JobV {
    pub identifier: Seq<char>,
    pub execution: i64,
    pub status: Status,
}

impl View for Job {
    type V = JobV;

    open spec fn view(&self) -> JobV {
        JobV { identifier: self.identifier@, execution: self.execution, status: self.status }
    }
}

impl Clone for Job {
    fn clone(&self) -> (r: Self)
        ensures
            r == *self,
    {
        Job { identifier: self.identifier.clone(), execution: self.execution, status: self.status }
    }
}

impl Job {
    /// Create a new job.
    pub fn new(identifier: String, execution: i64, status: Status) -> (r: Job)
        ensures
            r.identifier@ == identifier@,
            r.execution == execution,
            r.status == status,
    {
        Job { identifier, execution, status }
    }

    /// Get the identifier of this job.
    pub fn get_identifier(&self) -> (r: &String)
        ensures
            r@ == self.identifier@,
    {
        &self.identifier
    }

    /// Get the execution instant of this job, in nanoseconds since the epoch.
    pub fn get_execution(&self) -> (r: i64)
        ensures
            r == self.execution,
    {
        self.execution
    }

    /// Get the current status of this job.
    pub fn get_status(&self) -> (r: Status)
        ensures
            r == self.status,
    {
        self.status
    }

    /// Set the status of this job to Triggered. Return Ok if the job was in
    /// status Planned, Err otherwise, leaving the job unchanged.
    pub fn set_triggered(&mut self) -> (r: Result<(), ()>)
        ensures
            final(self).identifier@ == old(self).identifier@,
            final(self).execution == old(self).execution,
            r is Ok <==> old(self).status == Status::Planned,
            r is Ok ==> final(self).status == Status::Triggered,
            r is Err ==> final(self).status == old(self).status,
            allowed_transition(old(self).status, final(self).status)
                || final(self).status == old(self).status,
    {
        match self.status {
            Status::Planned => {
                self.status = Status::Triggered;
                Ok(())
            },
            _ => Err(()),
        }
    }

    /// Set the status of this job to Executed. Return Ok if the job was in
    /// status Triggered, Err otherwise, leaving the job unchanged.
    pub fn set_executed(&mut self) -> (r: Result<(), ()>)
        ensures
            final(self).identifier@ == old(self).identifier@,
            final(self).execution == old(self).execution,
            r is Ok <==> old(self).status == Status::Triggered,
            r is Ok ==> final(self).status == Status::Executed,
            r is Err ==> final(self).status == old(self).status,
            allowed_transition(old(self).status, final(self).status)
                || final(self).status == old(self).status,
    {
        match self.status {
            Status::Triggered => {
                self.status = Status::Executed;
                Ok(())
            },
            _ => Err(()),
        }
    }

    /// Set the status of this job to Failed. Return Ok if the job was in
    /// status Planned or Triggered, Err otherwise, leaving the job unchanged.
    pub fn set_failed(&mut self) -> (r: Result<(), ()>)
        ensures
            final(self).identifier@ == old(self).identifier@,
            final(self).execution == old(self).execution,
            r is Ok <==> (old(self).status == Status::Planned
                || old(self).status == Status::Triggered),
            r is Ok ==> final(self).status == Status::Failed,
            r is Err ==> final(self).status == old(self).status,
            allowed_transition(old(self).status, final(self).status)
                || final(self).status == old(self).status,
    {
        match self.status {
            Status::Planned | Status::Triggered => {
                self.status = Status::Failed;
                Ok(())
            },
            _ => Err(()),
        }
    }

    /// Set the status of this job to Planned. Return Ok if the job was in
    /// status Executed or Failed, Err otherwise, leaving the job unchanged.
    pub fn set_planned(&mut self) -> (r: Result<(), ()>)
        ensures
            final(self).identifier@ == old(self).identifier@,
            final(self).execution == old(self).execution,
            r is Ok <==> (old(self).status == Status::Executed
                || old(self).status == Status::Failed),
            r is Ok ==> final(self).status == Status::Planned,
            r is Err ==> final(self).status == old(self).status,
            allowed_transition(old(self).status, final(self).status)
                || final(self).status == old(self).status,
    {
        match self.status {
            Status::Executed | Status::Failed => {
                self.status = Status::Planned;
                Ok(())
            },
            _ => Err(()),
        }
    }
}

} // verus!
