use kairoi::job::{Job, Status};
use kairoi::store::Storage;
use kairoi::time::{now_nanos, parse_datetime};

#[test]
fn single_set_get() {
    let mut storage = Storage::new();
    let now = now_nanos();
    let job = Job::new(String::from("job"), now, Status::Planned);

    storage.set(job.clone());
    assert_eq!(storage.get("job"), Some(&job));
}

#[test]
fn get_to_execute() {
    let mut storage = Storage::new();
    let now = parse_datetime("2020-07-24 10:32:00").unwrap();
    let datetime1 = parse_datetime("2020-07-24 10:30:00").unwrap();
    let datetime2 = parse_datetime("2020-07-24 10:31:00").unwrap();
    let datetime3 = parse_datetime("2020-07-24 10:32:00").unwrap();
    let datetime4 = parse_datetime("2020-07-24 10:33:00").unwrap();
    let job1 = Job::new(String::from("job.1"), datetime1, Status::Planned);
    let job2 = Job::new(String::from("job.2"), datetime2, Status::Executed);
    let job3 = Job::new(String::from("job.3"), datetime3, Status::Planned);
    let job4 = Job::new(String::from("job.4"), datetime4, Status::Planned);

    storage.set(job1.clone());
    storage.set(job2.clone());
    storage.set(job3.clone());
    storage.set(job4.clone());
    assert_eq!(storage.get_to_execute(now), vec![job1, job3]);
}

#[test]
fn get_to_execute_with_sequential_modifications() {
    let mut storage = Storage::new();
    let now = parse_datetime("2020-07-24 10:32:00").unwrap();
    let datetime1 = parse_datetime("2020-07-24 10:30:00").unwrap();
    let datetime2 = parse_datetime("2020-07-24 10:31:00").unwrap();
    let datetime3 = parse_datetime("2020-07-24 10:32:00").unwrap();
    let datetime4 = parse_datetime("2020-07-24 10:33:00").unwrap();
    let job1 = Job::new(String::from("job.1"), datetime1, Status::Planned);
    let job2 = Job::new(String::from("job.2"), datetime2, Status::Executed);
    let job3 = Job::new(String::from("job.3"), datetime3, Status::Planned);
    let job4 = Job::new(String::from("job.4"), datetime4, Status::Planned);

    storage.set(job1.clone());
    storage.set(job2.clone());
    storage.set(job3.clone());
    storage.set(job4.clone());
    assert_eq!(storage.get_to_execute(now), vec![job1.clone(), job3.clone()]);

    let job1 = Job::new(String::from("job.1"), datetime1, Status::Triggered);
    storage.set(job1.clone());
    assert_eq!(storage.get_to_execute(now), vec![job3]);
}

#[test]
fn job_due_exactly_now_is_included() {
    // The due comparison is inclusive: a job planned exactly at the current
    // instant is due.
    let mut storage = Storage::new();
    let job = Job::new(String::from("exact"), 1_000, Status::Planned);
    storage.set(job.clone());
    assert_eq!(storage.get_to_execute(1_000), vec![job.clone()]);
    assert_eq!(storage.get_to_execute(999), Vec::<Job>::new());
}

#[test]
fn job_state_machine_transitions() {
    let mut job = Job::new(String::from("j"), 0, Status::Planned);
    assert_eq!(job.set_executed(), Err(()));
    assert_eq!(job.set_planned(), Err(()));
    assert_eq!(job.set_triggered(), Ok(()));
    assert_eq!(job.get_status(), Status::Triggered);
    assert_eq!(job.set_triggered(), Err(()));
    assert_eq!(job.set_executed(), Ok(()));
    assert_eq!(job.get_status(), Status::Executed);
    assert_eq!(job.set_failed(), Err(()));
    assert_eq!(job.set_planned(), Ok(()));
    assert_eq!(job.set_failed(), Ok(()));
    assert_eq!(job.get_status(), Status::Failed);
    assert_eq!(job.set_planned(), Ok(()));
    assert_eq!(job.get_status(), Status::Planned);
}
