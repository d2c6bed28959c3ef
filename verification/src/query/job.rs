//! Handle Job Set instructions.

use vstd::prelude::*;
use crate::codec::{spec_encode_job, valid_job};
use crate::framing::spec_frame;
use crate::job::{allowed_transition, Job, JobV, Status};
use crate::storage::Storage;

verus! {

/// Handle Job Set instructions.
pub struct JobSet {}

impl JobSet {
    /// Decide a Job Set instruction against the current store. A job that is
    /// in flight (Triggered) cannot be overwritten: the instruction is
    /// refused. Otherwise return the new Planned job together with its log
    /// record; the caller persists the record, then commits the job with
    /// [`Storage::set_job`]. The instruction is also refused when the
    /// identifier is longer than 65535 bytes.
    pub fn handle(identifier: &String, execution: i64, storage: &Storage) -> (r: Result<
        (Job, Vec<u8>),
        (),
    >)
        requires
            storage.wf(),
        ensures
            ({
                let jobs = storage.view_store().jobs;
                let jv = JobV { identifier: identifier@, execution, status: Status::Planned };
                let rejected = jobs.contains_key(identifier@) && jobs[identifier@].status
                    == Status::Triggered;
                match r {
                    Ok(p) => {
                        &&& p.0@ == jv
                        &&& !rejected
                        &&& valid_job(jv)
                        &&& p.1@ == spec_frame(spec_encode_job(jv))
                        &&& (jobs.contains_key(identifier@) ==> allowed_transition(
                            jobs[identifier@].status,
                            Status::Planned,
                        ))
                    },
                    Err(_) => rejected || !valid_job(jv),
                }
            }),
    {
        let job = Job::new(identifier.clone(), execution, Status::Planned);
        match storage.get_job(identifier.as_str()) {
            Some(current) => {
                if matches!(current.get_status(), Status::Triggered) {
                    return Err(());
                }
            },
            None => {},
        }
        match storage.prepare_job(&job) {
            Ok(bytes) => Ok((job, bytes)),
            Err(_) => Err(()),
        }
    }
}

} // verus!
