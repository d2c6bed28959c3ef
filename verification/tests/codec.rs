use kairoi::codec::{DecodeError, Decoded, Encodable, Encoder};
use kairoi::job::{Job, Status};
use kairoi::rule::{Rule, Runner};
use kairoi::time::parse_datetime;

#[test]
fn encoder_test_encode() {
    let encoder = Encoder::new();
    let ts = parse_datetime("2020-11-15 16:30:00").unwrap();

    // Test job encoding.
    assert_eq!(
        encoder.encode(Encodable::Job(&Job::new(String::from("toto"), ts, Status::Planned))),
        Ok(vec![0, 0, 4, 116, 111, 116, 111, 22, 71, 187, 92, 238, 225, 80, 0, 0]),
    );
    assert_eq!(
        encoder.encode(Encodable::Job(&Job::new(String::from("tatat"), ts, Status::Executed))),
        Ok(vec![0, 0, 5, 116, 97, 116, 97, 116, 22, 71, 187, 92, 238, 225, 80, 0, 2]),
    );
    assert_eq!(
        encoder.encode(Encodable::Rule(&Rule::new(
            String::from("t"),
            String::from("toto"),
            Runner::Shell { command: String::from("titi") },
        ))),
        Ok(vec![1, 0, 1, 116, 0, 4, 116, 111, 116, 111, 0, 0, 4, 116, 105, 116, 105]),
    );
    assert_eq!(
        encoder.encode(Encodable::Rule(&Rule::new(
            String::from("ta"),
            String::from("tot"),
            Runner::Amqp {
                dsn: String::from("titit"),
                exchange: String::from(""),
                routing_key: String::from("a"),
            },
        ))),
        Ok(vec![1, 0, 2, 116, 97, 0, 3, 116, 111, 116, 1, 0, 5, 116, 105, 116, 105, 116, 0, 0, 0, 1, 97]),
    );
}

#[test]
fn encoder_test_decode() {
    let encoder = Encoder::new();
    let ts = parse_datetime("2020-11-15 16:30:00").unwrap();

    // Test basic valid buffers.
    assert_eq!(
        encoder.decode(&vec![0, 0, 4, 116, 111, 116, 111, 22, 71, 187, 92, 238, 225, 80, 0, 0]),
        Ok(Decoded::Job(Job::new(String::from("toto"), ts, Status::Planned))),
    );
    assert_eq!(
        encoder.decode(&vec![0, 0, 5, 116, 97, 116, 97, 116, 22, 71, 187, 92, 238, 225, 80, 0, 2]),
        Ok(Decoded::Job(Job::new(String::from("tatat"), ts, Status::Executed))),
    );
    assert_eq!(
        encoder.decode(&vec![1, 0, 1, 116, 0, 4, 116, 111, 116, 111, 0, 0, 4, 116, 105, 116, 105]),
        Ok(Decoded::Rule(Rule::new(
            String::from("t"),
            String::from("toto"),
            Runner::Shell { command: String::from("titi") },
        ))),
    );
    assert_eq!(
        encoder.decode(&vec![
            1, 0, 2, 116, 97, 0, 3, 116, 111, 116, 1, 0, 5, 116, 105, 116, 105, 116, 0, 0, 0, 1,
            97,
        ]),
        Ok(Decoded::Rule(Rule::new(
            String::from("ta"),
            String::from("tot"),
            Runner::Amqp {
                dsn: String::from("titit"),
                exchange: String::from(""),
                routing_key: String::from("a"),
            },
        ))),
    );
    // Test invalid entries.
    assert_eq!(encoder.decode(&vec![]), Err(DecodeError::InvalidData));
    assert_eq!(encoder.decode(&vec![0, 0, 4]), Err(DecodeError::InvalidData));
    assert_eq!(
        encoder.decode(&vec![
            0, 0, 4, 116, 111, 116, 111, 22, 71, 187, 92, 238, 225, 80, 0, 0, 255,
        ]),
        Err(DecodeError::InvalidData),
    );
}

#[test]
fn decode_rejects_invalid_utf8_identifier() {
    // A job entry whose identifier byte is not valid UTF-8 is refused, while
    // the same layout with a valid byte is accepted.
    let encoder = Encoder::new();
    let bad = vec![0, 0, 1, 255, 0, 0, 0, 0, 0, 0, 0, 0, 0];
    assert_eq!(encoder.decode(&bad), Err(DecodeError::InvalidData));
    let good = vec![0, 0, 1, 97, 0, 0, 0, 0, 0, 0, 0, 0, 0];
    assert_eq!(
        encoder.decode(&good),
        Ok(Decoded::Job(Job::new(String::from("a"), 0, Status::Planned))),
    );
}

#[test]
fn job_round_trips_through_encoding() {
    let encoder = Encoder::new();
    let job = Job::new(String::from("app.domain.example_job.0"), -42, Status::Failed);
    let bytes = encoder.encode(Encodable::Job(&job)).unwrap();
    assert_eq!(encoder.decode(&bytes), Ok(Decoded::Job(job)));
}

#[test]
fn rule_round_trips_through_encoding() {
    let encoder = Encoder::new();
    let rule = Rule::new(
        String::from("r\u{e9}gle"),
        String::from("app."),
        Runner::Amqp {
            dsn: String::from("amqp://localhost"),
            exchange: String::from("jobs"),
            routing_key: String::from("run"),
        },
    );
    let bytes = encoder.encode(Encodable::Rule(&rule)).unwrap();
    assert_eq!(encoder.decode(&bytes), Ok(Decoded::Rule(rule)));
    // And the bytes themselves round-trip through a decode then encode.
    let decoded = encoder.decode(&bytes).unwrap();
    let reencoded = match &decoded {
        Decoded::Job(j) => encoder.encode(Encodable::Job(j)).unwrap(),
        Decoded::Rule(r) => encoder.encode(Encodable::Rule(r)).unwrap(),
    };
    assert_eq!(reencoded, bytes);
}

#[test]
fn identifier_at_the_length_limit_encodes() {
    // An identifier of exactly 65535 bytes is accepted; 65536 is rejected.
    let encoder = Encoder::new();
    let job = Job::new("a".repeat(65535), 0, Status::Planned);
    let bytes = encoder.encode(Encodable::Job(&job)).unwrap();
    assert_eq!(encoder.decode(&bytes), Ok(Decoded::Job(job)));
    let too_long = Job::new("a".repeat(65536), 0, Status::Planned);
    assert_eq!(encoder.encode(Encodable::Job(&too_long)), Err(()));
}
