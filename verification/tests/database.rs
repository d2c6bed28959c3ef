use kairoi::codec::{Decoded, Encodable, Encoder};
use kairoi::engine::{Client, Response};
use kairoi::instruction::Instruction;
use kairoi::job::{Job, Status};
use kairoi::persistence::compress;
use kairoi::query;
use kairoi::request;
use kairoi::rule::{Rule, Runner};
use kairoi::storage::Storage;
use kairoi::time::{parse_datetime, Clock};

#[test]
fn rule_priority_picks_the_longest_pattern() {
    // Two rules: pairing picks the longer matching pattern; a job matching
    // only the shorter one gets it.
    let mut storage = Storage::new();
    let a = Rule::new(
        String::from("a"),
        String::from("app."),
        Runner::Shell { command: String::from("/bin/true") },
    );
    let b = Rule::new(
        String::from("b"),
        String::from("app.foo."),
        Runner::Shell { command: String::from("/bin/true") },
    );
    storage.set_rule(a.clone());
    storage.set_rule(b.clone());
    assert_eq!(storage.pair(&String::from("app.foo.1")), Some(b));
    assert_eq!(storage.pair(&String::from("app.bar.1")), Some(a));
    assert_eq!(storage.pair(&String::from("other")), None);
}

#[test]
fn empty_pattern_supports_every_job_with_weight_zero() {
    let rule = Rule::new(
        String::from("any"),
        String::from(""),
        Runner::Shell { command: String::from("/bin/true") },
    );
    assert_eq!(rule.supports(&String::from("whatever.job")), Some(0));
    // Still chosen when it is the only match.
    let mut storage = Storage::new();
    storage.set_rule(rule.clone());
    assert_eq!(storage.pair(&String::from("whatever.job")), Some(rule));
}

#[test]
fn set_on_triggered_job_is_rejected() {
    // A job that is in flight cannot be overwritten by a client instruction;
    // once terminal it can be re-planned.
    let mut storage = Storage::new();
    let past = parse_datetime("1970-01-01 00:00:00").unwrap();
    let triggered = Job::new(String::from("shell.t.0"), past, Status::Triggered);
    storage.set_job(triggered);
    assert!(query::job::JobSet::handle(&String::from("shell.t.0"), past, &storage).is_err());
    let executed = Job::new(String::from("shell.t.0"), past, Status::Executed);
    storage.set_job(executed);
    let (job, _record) =
        query::job::JobSet::handle(&String::from("shell.t.0"), past, &storage).unwrap();
    assert_eq!(job.get_status(), Status::Planned);
}

#[test]
fn persisted_records_replay_to_the_same_state() {
    // The record returned for a mutation decodes back to the applied entry:
    // recovery from the log alone reproduces the state.
    let storage = Storage::new();
    let job = Job::new(String::from("app.x"), 123_456_789, Status::Planned);
    let record = storage.prepare_job(&job).unwrap();
    // Strip the four length bytes of the frame and decode the payload.
    let payload = &record[4..];
    let encoder = Encoder::new();
    assert_eq!(encoder.decode(payload), Ok(Decoded::Job(job)));
}

#[test]
fn compaction_keeps_only_the_newest_record_per_subject() {
    let ts = parse_datetime("2020-05-26 22:26:18").unwrap();
    let job_old = Decoded::Job(Job::new(String::from("j.1"), ts, Status::Planned));
    let rule = Decoded::Rule(Rule::new(
        String::from("j.1"),
        String::from("j."),
        Runner::Shell { command: String::from("/bin/true") },
    ));
    let job_new = Decoded::Job(Job::new(String::from("j.1"), ts, Status::Executed));
    let log = vec![job_old, rule.clone(), job_new.clone()];
    assert_eq!(compress(&log), vec![rule, job_new]);
}

#[test]
fn execution_results_match_in_flight_requests_once() {
    let mut client = Client::new();
    let request = client.trigger(
        String::from("app.x"),
        Runner::Shell { command: String::from("/bin/true") },
        7,
    );
    assert_eq!(request.identifier, 7);
    assert!(client.has_request(7));
    assert!(client.has_job("app.x"));
    let matched = client
        .match_result(Response { identifier: 7, result: Ok(()) })
        .unwrap();
    assert_eq!(matched.job, String::from("app.x"));
    assert_eq!(matched.result, Ok(()));
    // A duplicated or stale response is dropped silently.
    assert!(client.match_result(Response { identifier: 7, result: Ok(()) }).is_none());
    assert!(!client.has_request(7));
}

#[test]
fn job_set_requests_build_into_instructions() {
    let builder = request::job::JobSet::new();
    let ok = builder.build(&vec![
        String::from("SET"),
        String::from("app.domain.example_job.0"),
        String::from("2020-05-26 22:26:18"),
    ]);
    match ok {
        Some(Ok(Instruction::JobSet { identifier, execution })) => {
            assert_eq!(identifier, String::from("app.domain.example_job.0"));
            assert_eq!(execution, parse_datetime("2020-05-26 22:26:18").unwrap());
        },
        _ => panic!("expected a Job Set instruction"),
    }
    assert!(builder.build(&vec![String::from("VERSION")]).is_none());
    assert!(matches!(
        builder.build(&vec![
            String::from("SET"),
            String::from("app.x"),
            String::from("not a datetime ttt"),
        ]),
        Some(Err(())),
    ));
}

#[test]
fn rule_set_requests_build_into_instructions() {
    let builder = request::rule::RuleSetBuilder::new();
    let ok = builder.build(&vec![
        String::from("RULE"),
        String::from("SET"),
        String::from("r1"),
        String::from("app."),
        String::from("shell"),
        String::from("/bin/true"),
    ]);
    match ok {
        Some(Ok(Instruction::RuleSet { identifier, pattern, runner })) => {
            assert_eq!(identifier, String::from("r1"));
            assert_eq!(pattern, String::from("app."));
            assert_eq!(runner, Runner::Shell { command: String::from("/bin/true") });
        },
        _ => panic!("expected a Rule Set instruction"),
    }
    assert!(builder.build(&vec![String::from("SET"), String::from("x")]).is_none());
    assert!(matches!(
        builder.build(&vec![
            String::from("RULE"),
            String::from("SET"),
            String::from("r1"),
            String::from("app."),
            String::from("teleport"),
            String::from("x"),
        ]),
        Some(Err(())),
    ));
}

#[test]
fn datetime_parsing_matches_the_epoch() {
    assert_eq!(parse_datetime("1970-01-01 00:00:00"), Ok(0));
    assert_eq!(parse_datetime("2020-11-15 16:30:00"), Ok(1_605_457_800_000_000_000));
    assert_eq!(parse_datetime("1969-12-31 23:59:59"), Ok(-1_000_000_000));
    assert!(parse_datetime("2020-13-01 00:00:00").is_err());
    assert!(parse_datetime("2020-02-30 00:00:00").is_err());
    assert_eq!(parse_datetime("2020-02-29 00:00:00"), Ok(1_582_934_400_000_000_000));
    assert!(parse_datetime("not a datetime at all").is_err());
    // Instants past the signed 64-bit nanosecond range are refused.
    assert!(parse_datetime("2262-04-11 23:47:16").is_ok());
    assert!(parse_datetime("2263-01-01 00:00:00").is_err());
}

#[test]
fn clock_tick_length_follows_the_framerate() {
    let clock = Clock::with_framerate(512);
    assert_eq!(clock.tick_nanos(), 1_953_125);
    let slow = Clock::with_framerate(1);
    assert_eq!(slow.tick_nanos(), 1_000_000_000);
}

#[test]
fn rule_record_round_trips_through_the_storage() {
    let mut storage = Storage::new();
    let rule = Rule::new(
        String::from("r1"),
        String::from("app."),
        Runner::Amqp {
            dsn: String::from("amqp://localhost"),
            exchange: String::from("jobs"),
            routing_key: String::from("run"),
        },
    );
    let record = storage.prepare_rule(&rule).unwrap();
    storage.set_rule(rule.clone());
    let encoder = Encoder::new();
    assert_eq!(encoder.decode(&record[4..]), Ok(Decoded::Rule(rule)));
    // Encoding the decoded entry yields the same payload bytes.
    let decoded = encoder.decode(&record[4..]).unwrap();
    if let Decoded::Rule(r) = &decoded {
        assert_eq!(encoder.encode(Encodable::Rule(r)).unwrap(), record[4..].to_vec());
    } else {
        panic!("expected a rule entry");
    }
}

#[test]
fn rule_handler_prepares_rules_and_rejects_oversized_ones() {
    let storage = Storage::new();
    let ok = query::rule::RuleSetHandler::handle(
        &String::from("r1"),
        &String::from("app."),
        &Runner::Shell { command: String::from("/bin/true") },
        &storage,
    );
    assert!(ok.is_ok());
    let too_long = query::rule::RuleSetHandler::handle(
        &String::from("r1"),
        &"p".repeat(65536),
        &Runner::Shell { command: String::from("/bin/true") },
        &storage,
    );
    assert!(too_long.is_err());
}

#[test]
fn recovery_replays_the_last_record_per_subject() {
    // Replaying a log rebuilds the store with the newest record for each
    // subject, and hands back the jobs left in flight for re-dispatch.
    let ts = parse_datetime("2020-05-26 22:26:18").unwrap();
    let entries = vec![
        Decoded::Job(Job::new(String::from("j.1"), ts, Status::Planned)),
        Decoded::Rule(Rule::new(
            String::from("r1"),
            String::from("j."),
            Runner::Shell { command: String::from("/bin/true") },
        )),
        Decoded::Job(Job::new(String::from("j.1"), ts, Status::Triggered)),
        Decoded::Job(Job::new(String::from("j.2"), ts, Status::Executed)),
    ];
    let mut storage = Storage::new();
    let triggered = storage.initialize(entries);
    assert_eq!(triggered, vec![Job::new(String::from("j.1"), ts, Status::Triggered)]);
    assert_eq!(
        storage.get_job("j.1"),
        Some(&Job::new(String::from("j.1"), ts, Status::Triggered)),
    );
    assert_eq!(
        storage.get_job("j.2"),
        Some(&Job::new(String::from("j.2"), ts, Status::Executed)),
    );
    assert!(storage.get_job("r1").is_none());
    assert!(storage.pair(&String::from("j.9")).is_some());
}

#[test]
fn compaction_bounds_the_log_by_distinct_subjects() {
    // Many repeated updates on a few identifiers compact to exactly one
    // record per subject, holding the last-persisted values.
    let ts = parse_datetime("2020-05-26 22:26:18").unwrap();
    let mut log = Vec::new();
    for round in 0..100 {
        for id in ["app.1", "app.2", "app.3"] {
            let status = if round % 2 == 0 { Status::Planned } else { Status::Executed };
            log.push(Decoded::Job(Job::new(String::from(id), ts + round, status)));
        }
    }
    let kept = compress(&log);
    assert_eq!(kept.len(), 3);
    for id in ["app.1", "app.2", "app.3"] {
        assert!(kept.contains(&Decoded::Job(Job::new(String::from(id), ts + 99, Status::Executed))));
    }
}
