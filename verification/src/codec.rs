//! Binary encoding of log entries.
//!
//! Each entry records one job or rule mutation. A job is encoded as
//! `[0x00][sz(identifier)][identifier][i64 be nanoseconds][status byte]` and a
//! rule as `[0x01][sz(identifier)][identifier][sz(pattern)][pattern][runner
//! tag][runner body]`, where `sz(x)` is the big-endian 16-bit byte length of
//! the UTF-8 string `x`. The runner body is `[sz(command)][command]` for shell
//! runners (tag 0) and `[sz(dsn)][dsn][sz(exchange)][exchange]
//! [sz(routing_key)][routing_key]` for AMQP runners (tag 1).

use vstd::prelude::*;
use vstd::utf8::{encode_utf8, valid_utf8, encode_utf8_valid_utf8};
use crate::job::{Job, JobV, Status};
use crate::rule::{Rule, RuleV, Runner, RunnerV};

verus! {

/// The mathematical model of a log entry: a job or a rule mutation.
pub ghost enum EntryV {
    Job(JobV),
    Rule(RuleV),
}

/// The big-endian bytes of a 16-bit integer.
pub open spec fn be16(n: u16) -> Seq<u8> {
    seq![(n >> 8) as u8, n as u8]
}

/// The 16-bit integer read from two big-endian bytes.
pub open spec fn be16_val(b0: u8, b1: u8) -> u16 {
    ((b0 as u16) << 8) | (b1 as u16)
}

/// The big-endian bytes of a 64-bit integer.
pub open spec fn be64(n: u64) -> Seq<u8> {
    seq![
        (n >> 56) as u8,
        (n >> 48) as u8,
        (n >> 40) as u8,
        (n >> 32) as u8,
        (n >> 24) as u8,
        (n >> 16) as u8,
        (n >> 8) as u8,
        n as u8,
    ]
}

/// The 64-bit integer read from eight big-endian bytes.
pub open spec fn be64_val(b: Seq<u8>) -> u64
    recommends
        b.len() == 8,
{
    ((b[0] as u64) << 56) | ((b[1] as u64) << 48) | ((b[2] as u64) << 40) | ((b[3] as u64) << 32)
        | ((b[4] as u64) << 24) | ((b[5] as u64) << 16) | ((b[6] as u64) << 8) | (b[7] as u64)
}

pub proof fn lemma_be16_roundtrip(n: u16)
    ensures
        be16_val(be16(n)[0], be16(n)[1]) == n,
{
    assert(((((n >> 8) as u8) as u16) << 8) | (((n as u8)) as u16) == n) by (bit_vector);
}

pub proof fn lemma_be16_val_roundtrip(b0: u8, b1: u8)
    ensures
        be16(be16_val(b0, b1)) =~= seq![b0, b1],
{
    let n = be16_val(b0, b1);
    assert(((((b0 as u16) << 8) | (b1 as u16)) >> 8) as u8 == b0) by (bit_vector);
    assert(((((b0 as u16) << 8) | (b1 as u16))) as u8 == b1) by (bit_vector);
}

pub proof fn lemma_be64_roundtrip(n: u64)
    ensures
        be64_val(be64(n)) == n,
{
    let b = be64(n);
    assert(((((n >> 56) as u8) as u64) << 56) | ((((n >> 48) as u8) as u64) << 48)
        | ((((n >> 40) as u8) as u64) << 40) | ((((n >> 32) as u8) as u64) << 32)
        | ((((n >> 24) as u8) as u64) << 24) | ((((n >> 16) as u8) as u64) << 16)
        | ((((n >> 8) as u8) as u64) << 8) | (((n as u8)) as u64) == n) by (bit_vector);
}

pub proof fn lemma_be64_val_roundtrip(b: Seq<u8>)
    requires
        b.len() == 8,
    ensures
        be64(be64_val(b)) =~= b,
{
    let b0 = b[0];
    let b1 = b[1];
    let b2 = b[2];
    let b3 = b[3];
    let b4 = b[4];
    let b5 = b[5];
    let b6 = b[6];
    let b7 = b[7];
    let n = be64_val(b);
    assert(n == ((b0 as u64) << 56) | ((b1 as u64) << 48) | ((b2 as u64) << 40) | ((b3
        as u64) << 32) | ((b4 as u64) << 24) | ((b5 as u64) << 16) | ((b6 as u64) << 8) | (b7
        as u64));
    let m = ((b0 as u64) << 56) | ((b1 as u64) << 48) | ((b2 as u64) << 40) | ((b3 as u64) << 32)
        | ((b4 as u64) << 24) | ((b5 as u64) << 16) | ((b6 as u64) << 8) | (b7 as u64);
    assert((m >> 56) as u8 == b0 && (m >> 48) as u8 == b1 && (m >> 40) as u8 == b2 && (m >> 32)
        as u8 == b3 && (m >> 24) as u8 == b4 && (m >> 16) as u8 == b5 && (m >> 8) as u8 == b6 && m
        as u8 == b7) by (bit_vector)
        requires
            m == ((b0 as u64) << 56) | ((b1 as u64) << 48) | ((b2 as u64) << 40) | ((b3
                as u64) << 32) | ((b4 as u64) << 24) | ((b5 as u64) << 16) | ((b6 as u64) << 8)
                | (b7 as u64),
    ;
}

/// The UTF-8 bytes of a character sequence.
pub open spec fn str_bytes(s: Seq<char>) -> Seq<u8> {
    encode_utf8(s)
}

/// True when the UTF-8 encoding of the string fits a 16-bit length prefix.
pub open spec fn fits_sized(s: Seq<char>) -> bool {
    str_bytes(s).len() <= 0xFFFF
}

/// A string's bytes prefixed by their big-endian 16-bit length.
pub open spec fn sized(b: Seq<u8>) -> Seq<u8>
    recommends
        b.len() <= 0xFFFF,
{
    be16(b.len() as u16) + b
}

/// The byte recording a job status.
pub open spec fn status_code(s: Status) -> u8 {
    match s {
        Status::Planned => 0,
        Status::Triggered => 1,
        Status::Executed => 2,
        Status::Failed => 3,
    }
}

/// The encoding of a job entry.
pub open spec fn spec_encode_job(j: JobV) -> Seq<u8> {
    seq![0u8] + sized(str_bytes(j.identifier)) + be64(j.execution as u64) + seq![
        status_code(j.status),
    ]
}

/// The encoding of a runner configuration.
pub open spec fn spec_encode_runner(r: RunnerV) -> Seq<u8> {
    match r {
        RunnerV::Shell { command } => seq![0u8] + sized(str_bytes(command)),
        RunnerV::Amqp { dsn, exchange, routing_key } => seq![1u8] + sized(str_bytes(dsn)) + sized(
            str_bytes(exchange),
        ) + sized(str_bytes(routing_key)),
    }
}

/// The encoding of a rule entry.
pub open spec fn spec_encode_rule(r: RuleV) -> Seq<u8> {
    seq![1u8] + sized(str_bytes(r.identifier)) + sized(str_bytes(r.pattern)) + spec_encode_runner(
        r.runner,
    )
}

/// The encoding of an entry.
pub open spec fn spec_encode_entry(e: EntryV) -> Seq<u8> {
    match e {
        EntryV::Job(j) => spec_encode_job(j),
        EntryV::Rule(r) => spec_encode_rule(r),
    }
}

/// A job entry can be encoded when its identifier fits the length prefix.
pub open spec fn valid_job(j: JobV) -> bool {
    fits_sized(j.identifier)
}

/// A runner can be encoded when all its strings fit their length prefixes.
pub open spec fn valid_runner(r: RunnerV) -> bool {
    match r {
        RunnerV::Shell { command } => fits_sized(command),
        RunnerV::Amqp { dsn, exchange, routing_key } => fits_sized(dsn) && fits_sized(exchange)
            && fits_sized(routing_key),
    }
}

/// A rule entry can be encoded when all its strings fit their length prefixes.
pub open spec fn valid_rule(r: RuleV) -> bool {
    fits_sized(r.identifier) && fits_sized(r.pattern) && valid_runner(r.runner)
}

/// An entry can be encoded when all its strings fit their length prefixes.
pub open spec fn valid_entry(e: EntryV) -> bool {
    match e {
        EntryV::Job(j) => valid_job(j),
        EntryV::Rule(r) => valid_rule(r),
    }
}

/// The tag byte introducing a runner encoding.
pub open spec fn runner_tag(r: RunnerV) -> u8 {
    match r {
        RunnerV::Shell { .. } => 0,
        RunnerV::Amqp { .. } => 1,
    }
}

/// True when no encodable entry encodes to the given bytes.
pub open spec fn no_entry_encodes(data: Seq<u8>) -> bool {
    forall|e: EntryV| valid_entry(e) ==> spec_encode_entry(e) != data
}

/// Within a byte sequence holding a length-prefixed block at a given offset,
/// relate the prefix bytes, the block bytes and the remainder.
proof fn lemma_sized_at(whole: Seq<u8>, at: int, b: Seq<u8>, rest: Seq<u8>)
    requires
        b.len() <= 0xFFFF,
        0 <= at <= whole.len(),
        whole.subrange(at, whole.len() as int) == sized(b) + rest,
    ensures
        whole.len() == at + 2 + b.len() + rest.len(),
        be16_val(whole[at], whole[at + 1]) == b.len(),
        whole.subrange(at + 2, at + 2 + b.len()) == b,
        whole.subrange(at + 2 + b.len(), whole.len() as int) == rest,
{
    let tail = whole.subrange(at, whole.len() as int);
    lemma_be16_roundtrip(b.len() as u16);
    assert(sized(b).len() == 2 + b.len());
    assert(tail.len() == whole.len() - at);
    assert(tail.len() == 2 + b.len() + rest.len());
    assert(whole[at] == tail[0]);
    assert(whole[at + 1] == tail[1]);
    let pfx = be16(b.len() as u16);
    assert(pfx.len() == 2);
    assert(sized(b) == pfx + b);
    assert((sized(b) + rest)[0] == sized(b)[0]);
    assert((sized(b) + rest)[1] == sized(b)[1]);
    assert((pfx + b)[0] == pfx[0]);
    assert((pfx + b)[1] == pfx[1]);
    assert forall|k: int| 0 <= k < b.len() implies whole[at + 2 + k] == b[k] by {
        assert(tail[2 + k] == whole[at + 2 + k]);
        assert((sized(b) + rest)[2 + k] == sized(b)[2 + k]);
        assert((pfx + b)[2 + k] == b[k]);
    }
    assert(whole.subrange(at + 2, at + 2 + b.len()) =~= b);
    assert forall|k: int| 0 <= k < rest.len() implies whole[at + 2 + b.len() + k] == rest[k] by {
        assert(tail[2 + b.len() + k] == whole[at + 2 + b.len() + k]);
        assert((sized(b) + rest)[2 + b.len() + k] == rest[k]);
    }
    assert(whole.subrange(at + 2 + b.len(), whole.len() as int) =~= rest);
}

/// The layout of an encoded job: its length, tag byte, length prefix,
/// identifier bytes, timestamp bytes and status byte.
pub proof fn lemma_job_shape(j: JobV)
    requires
        valid_job(j),
    ensures
        ({
            let b = spec_encode_job(j);
            let n = str_bytes(j.identifier).len() as int;
            &&& b.len() == 12 + n
            &&& b[0] == 0u8
            &&& be16_val(b[1], b[2]) == n
            &&& b.subrange(3, 3 + n) == str_bytes(j.identifier)
            &&& b.subrange(3 + n, 11 + n) == be64(j.execution as u64)
            &&& be64_val(b.subrange(3 + n, 11 + n)) == j.execution as u64
            &&& b[11 + n] == status_code(j.status)
        }),
{
    let b = spec_encode_job(j);
    let idb = str_bytes(j.identifier);
    let n = idb.len() as int;
    assert(b.subrange(1, b.len() as int) =~= sized(idb) + (be64(j.execution as u64) + seq![
        status_code(j.status),
    ]));
    lemma_sized_at(b, 1, idb, be64(j.execution as u64) + seq![status_code(j.status)]);
    assert(b.subrange(3 + n, 11 + n) =~= be64(j.execution as u64));
    assert(b[11 + n] == (be64(j.execution as u64) + seq![status_code(j.status)])[8]);
    lemma_be64_roundtrip(j.execution as u64);
}

/// The layout of an encoded rule: its tag byte, the two length-prefixed
/// strings, the runner tag and the runner's length-prefixed strings.
pub proof fn lemma_rule_shape(r: RuleV)
    requires
        valid_rule(r),
    ensures
        ({
            let b = spec_encode_rule(r);
            let n1 = str_bytes(r.identifier).len() as int;
            let n2 = str_bytes(r.pattern).len() as int;
            &&& b.len() >= 8 + n1 + n2
            &&& b[0] == 1u8
            &&& be16_val(b[1], b[2]) == n1
            &&& b.subrange(3, 3 + n1) == str_bytes(r.identifier)
            &&& be16_val(b[3 + n1], b[4 + n1]) == n2
            &&& b.subrange(5 + n1, 5 + n1 + n2) == str_bytes(r.pattern)
            &&& b[5 + n1 + n2] == runner_tag(r.runner)
            &&& match r.runner {
                RunnerV::Shell { command } => {
                    let n3 = str_bytes(command).len() as int;
                    &&& b.len() == 8 + n1 + n2 + n3
                    &&& be16_val(b[6 + n1 + n2], b[7 + n1 + n2]) == n3
                    &&& b.subrange(8 + n1 + n2, 8 + n1 + n2 + n3) == str_bytes(command)
                },
                RunnerV::Amqp { dsn, exchange, routing_key } => {
                    let n3 = str_bytes(dsn).len() as int;
                    let n4 = str_bytes(exchange).len() as int;
                    let n5 = str_bytes(routing_key).len() as int;
                    &&& b.len() == 12 + n1 + n2 + n3 + n4 + n5
                    &&& be16_val(b[6 + n1 + n2], b[7 + n1 + n2]) == n3
                    &&& b.subrange(8 + n1 + n2, 8 + n1 + n2 + n3) == str_bytes(dsn)
                    &&& be16_val(b[8 + n1 + n2 + n3], b[9 + n1 + n2 + n3]) == n4
                    &&& b.subrange(10 + n1 + n2 + n3, 10 + n1 + n2 + n3 + n4) == str_bytes(
                        exchange,
                    )
                    &&& be16_val(b[10 + n1 + n2 + n3 + n4], b[11 + n1 + n2 + n3 + n4]) == n5
                    &&& b.subrange(
                        12 + n1 + n2 + n3 + n4,
                        12 + n1 + n2 + n3 + n4 + n5,
                    ) == str_bytes(routing_key)
                },
            }
        }),
{
    let b = spec_encode_rule(r);
    let idb = str_bytes(r.identifier);
    let patb = str_bytes(r.pattern);
    let renc = spec_encode_runner(r.runner);
    let n1 = idb.len() as int;
    let n2 = patb.len() as int;
    assert(b.subrange(1, b.len() as int) =~= sized(idb) + (sized(patb) + renc));
    lemma_sized_at(b, 1, idb, sized(patb) + renc);
    assert(b.subrange(3 + n1, b.len() as int) =~= sized(patb) + renc);
    lemma_sized_at(b, 3 + n1, patb, renc);
    assert(b.subrange(5 + n1 + n2, b.len() as int) =~= renc);
    assert(b[5 + n1 + n2] == renc[0]);
    match r.runner {
        RunnerV::Shell { command } => {
            let cb = str_bytes(command);
            assert(b.subrange(6 + n1 + n2, b.len() as int) =~= sized(cb) + Seq::<u8>::empty());
            lemma_sized_at(b, 6 + n1 + n2, cb, Seq::<u8>::empty());
        },
        RunnerV::Amqp { dsn, exchange, routing_key } => {
            let db = str_bytes(dsn);
            let eb = str_bytes(exchange);
            let kb = str_bytes(routing_key);
            let n3 = db.len() as int;
            let n4 = eb.len() as int;
            assert(b.subrange(6 + n1 + n2, b.len() as int) =~= sized(db) + (sized(eb) + sized(
                kb,
            )));
            lemma_sized_at(b, 6 + n1 + n2, db, sized(eb) + sized(kb));
            assert(b.subrange(8 + n1 + n2 + n3, b.len() as int) =~= sized(eb) + sized(kb));
            lemma_sized_at(b, 8 + n1 + n2 + n3, eb, sized(kb));
            assert(b.subrange(10 + n1 + n2 + n3 + n4, b.len() as int) =~= sized(kb)
                + Seq::<u8>::empty());
            lemma_sized_at(b, 10 + n1 + n2 + n3 + n4, kb, Seq::<u8>::empty());
        },
    }
}

/// Law: the entry encoding is injective. Together with the decoder's
/// contract, decoding an encoded entry yields that entry back.
pub proof fn lemma_encode_injective(e1: EntryV, e2: EntryV)
    requires
        valid_entry(e1),
        valid_entry(e2),
        spec_encode_entry(e1) == spec_encode_entry(e2),
    ensures
        e1 == e2,
{
    match (e1, e2) {
        (EntryV::Job(j1), EntryV::Job(j2)) => {
            lemma_job_shape(j1);
            lemma_job_shape(j2);
            let b = spec_encode_job(j1);
            let n = str_bytes(j1.identifier).len() as int;
            assert(str_bytes(j1.identifier) == str_bytes(j2.identifier));
            lemma_str_bytes_injective(j1.identifier, j2.identifier);
            assert(be64_val(b.subrange(3 + n, 11 + n)) == j1.execution as u64);
            assert(j1.execution as u64 == j2.execution as u64);
            lemma_i64_bits_injective(j1.execution, j2.execution);
            assert(j1.status == j2.status);
        },
        (EntryV::Rule(r1), EntryV::Rule(r2)) => {
            lemma_rule_shape(r1);
            lemma_rule_shape(r2);
            assert(str_bytes(r1.identifier) == str_bytes(r2.identifier));
            lemma_str_bytes_injective(r1.identifier, r2.identifier);
            assert(str_bytes(r1.pattern) == str_bytes(r2.pattern));
            lemma_str_bytes_injective(r1.pattern, r2.pattern);
            match (r1.runner, r2.runner) {
                (RunnerV::Shell { command: c1 }, RunnerV::Shell { command: c2 }) => {
                    assert(str_bytes(c1) == str_bytes(c2));
                    lemma_str_bytes_injective(c1, c2);
                },
                (
                    RunnerV::Amqp { dsn: d1, exchange: x1, routing_key: k1 },
                    RunnerV::Amqp { dsn: d2, exchange: x2, routing_key: k2 },
                ) => {
                    assert(str_bytes(d1) == str_bytes(d2));
                    lemma_str_bytes_injective(d1, d2);
                    assert(str_bytes(x1) == str_bytes(x2));
                    lemma_str_bytes_injective(x1, x2);
                    assert(str_bytes(k1) == str_bytes(k2));
                    lemma_str_bytes_injective(k1, k2);
                },
                _ => {
                    assert(false);
                },
            }
        },
        (EntryV::Job(j1), EntryV::Rule(r2)) => {
            lemma_job_shape(j1);
            lemma_rule_shape(r2);
            assert(false);
        },
        (EntryV::Rule(r1), EntryV::Job(j2)) => {
            lemma_rule_shape(r1);
            lemma_job_shape(j2);
            assert(false);
        },
    }
}

/// The UTF-8 encoding of a character sequence determines the sequence.
pub proof fn lemma_str_bytes_injective(a: Seq<char>, b: Seq<char>)
    requires
        str_bytes(a) == str_bytes(b),
    ensures
        a == b,
{
    vstd::utf8::encode_utf8_decode_utf8(a);
    vstd::utf8::encode_utf8_decode_utf8(b);
}

proof fn lemma_i64_bits_injective(x: i64, y: i64)
    requires
        x as u64 == y as u64,
    ensures
        x == y,
{
    assert(x as u64 == y as u64 ==> x == y) by (bit_vector);
}

proof fn lemma_u64_i64_roundtrip(v: u64)
    ensures
        ((v as i64) as u64) == v,
{
    assert(((v as i64) as u64) == v) by (bit_vector);
}

/// A decoded log entry.
#[derive(Debug, PartialEq)]
pub enum Decoded {
    Job(Job),
    Rule(Rule),
}

impl View for Decoded {
    type V = EntryV;

    open spec fn view(&self) -> EntryV {
        match self {
            Decoded::Job(j) => EntryV::Job(j@),
            Decoded::Rule(r) => EntryV::Rule(r@),
        }
    }
}

#[derive(Debug, PartialEq, Eq, Structural, Clone, Copy)]
pub enum DecodeError {
    InvalidData,
}

pub type DecodeResult = Result<Decoded, DecodeError>;

/// A value to be encoded.
pub enum Encodable<'a> {
    Job(&'a Job),
    Rule(&'a Rule),
}

impl<'a> View for Encodable<'a> {
    type V = EntryV;

    open spec fn view(&self) -> EntryV {
        match self {
            Encodable::Job(j) => EntryV::Job((*j)@),
            Encodable::Rule(r) => EntryV::Rule((*r)@),
        }
    }
}

pub type EncodeResult = Result<Vec<u8>, ()>;

/// Relies on String::from_utf8: it succeeds exactly on valid UTF-8 input, and
/// the returned string's UTF-8 encoding is the input bytes.
#[verifier::external_body]
fn bytes_to_string(bytes: &[u8]) -> (r: Option<String>)
    ensures
        r is Some <==> valid_utf8(bytes@),
        r is Some ==> encode_utf8(r.unwrap()@) == bytes@,
{
    match String::from_utf8(bytes.to_vec()) {
        Ok(s) => Some(s),
        Err(_) => None,
    }
}

fn read_be16(data: &[u8], i: usize) -> (r: u16)
    requires
        i + 2 <= data@.len(),
    ensures
        r == be16_val(data@[i as int], data@[i + 1]),
{
    let len = data.len();
    proof {
        assert(i + 2 <= len);
    }
    ((*vstd::slice::slice_index_get(data, i) as u16) << 8) | (*vstd::slice::slice_index_get(
        data,
        i + 1,
    ) as u16)
}

fn read_be64(data: &[u8], i: usize) -> (r: u64)
    requires
        i + 8 <= data@.len(),
    ensures
        r == be64_val(data@.subrange(i as int, i + 8)),
{
    let len = data.len();
    proof {
        assert(i + 8 <= len);
    }
    let r = ((*vstd::slice::slice_index_get(data, i) as u64) << 56) | ((*vstd::slice::slice_index_get(
        data,
        i + 1,
    ) as u64) << 48) | ((*vstd::slice::slice_index_get(data, i + 2) as u64) << 40) | ((
    *vstd::slice::slice_index_get(data, i + 3) as u64) << 32) | ((*vstd::slice::slice_index_get(
        data,
        i + 4,
    ) as u64) << 24) | ((*vstd::slice::slice_index_get(data, i + 5) as u64) << 16) | ((
    *vstd::slice::slice_index_get(data, i + 6) as u64) << 8) | (*vstd::slice::slice_index_get(
        data,
        i + 7,
    ) as u64);
    proof {
        let s = data@.subrange(i as int, i + 8);
        assert(s[0] == data@[i as int] && s[1] == data@[i + 1] && s[2] == data@[i + 2] && s[3]
            == data@[i + 3] && s[4] == data@[i + 4] && s[5] == data@[i + 5] && s[6] == data@[i + 6]
            && s[7] == data@[i + 7]);
    }
    r
}

/// Read a length-prefixed UTF-8 string at the given offset: two bytes of
/// big-endian length, then that many bytes of string data. Return the string
/// and the offset just after it.
fn read_sized(data: &[u8], i: usize) -> (r: Option<(String, usize)>)
    requires
        i <= data@.len(),
    ensures
        match r {
            Some(p) => {
                &&& i + 2 <= data@.len()
                &&& p.1 == i + 2 + be16_val(data@[i as int], data@[i + 1])
                &&& p.1 <= data@.len()
                &&& encode_utf8(p.0@) == data@.subrange(i + 2, p.1 as int)
            },
            None => {
                ||| i + 2 > data@.len()
                ||| i + 2 + be16_val(data@[i as int], data@[i + 1]) > data@.len()
                ||| !valid_utf8(
                    data@.subrange(i + 2, i + 2 + be16_val(data@[i as int], data@[i + 1])),
                )
            },
        },
{
    if data.len() < 2 || i > data.len() - 2 {
        return None;
    }
    let n = read_be16(data, i) as usize;
    if n > data.len() - (i + 2) {
        return None;
    }
    let sb = vstd::slice::slice_subrange(data, i + 2, i + 2 + n);
    match bytes_to_string(sb) {
        Some(s) => Some((s, i + 2 + n)),
        None => None,
    }
}

fn push_bytes(out: &mut Vec<u8>, b: &[u8])
    ensures
        final(out)@ == old(out)@ + b@,
{
    let mut i: usize = 0;
    while i < b.len()
        invariant
            0 <= i <= b@.len(),
            out@ == old(out)@ + b@.subrange(0, i as int),
        decreases b@.len() - i,
    {
        out.push(*vstd::slice::slice_index_get(b, i));
        proof {
            assert(old(out)@ + b@.subrange(0, i + 1) =~= (old(out)@ + b@.subrange(0, i as int)).push(
                b@[i as int],
            ));
        }
        i = i + 1;
    }
    proof {
        assert(b@.subrange(0, b@.len() as int) =~= b@);
    }
}

fn push_be16(out: &mut Vec<u8>, n: u16)
    ensures
        final(out)@ == old(out)@ + be16(n),
{
    out.push(#[verifier::truncate] ((n >> 8) as u8));
    out.push(#[verifier::truncate] (n as u8));
    proof {
        assert(out@ =~= old(out)@ + be16(n));
    }
}

fn push_be64(out: &mut Vec<u8>, n: u64)
    ensures
        final(out)@ == old(out)@ + be64(n),
{
    out.push(#[verifier::truncate] ((n >> 56) as u8));
    out.push(#[verifier::truncate] ((n >> 48) as u8));
    out.push(#[verifier::truncate] ((n >> 40) as u8));
    out.push(#[verifier::truncate] ((n >> 32) as u8));
    out.push(#[verifier::truncate] ((n >> 24) as u8));
    out.push(#[verifier::truncate] ((n >> 16) as u8));
    out.push(#[verifier::truncate] ((n >> 8) as u8));
    out.push(#[verifier::truncate] (n as u8));
    proof {
        assert(out@ =~= old(out)@ + be64(n));
    }
}

/// Append a string's bytes prefixed by their length, or report that the
/// string is too long for the 16-bit prefix, leaving the output unchanged.
fn push_sized_str(out: &mut Vec<u8>, s: &str) -> (ok: bool)
    ensures
        ok <==> fits_sized(s@),
        ok ==> final(out)@ == old(out)@ + sized(str_bytes(s@)),
        !ok ==> final(out)@ == old(out)@,
{
    let b = s.as_bytes();
    if b.len() > 0xFFFF {
        return false;
    }
    push_be16(out, b.len() as u16);
    push_bytes(out, b);
    proof {
        assert(out@ =~= old(out)@ + sized(str_bytes(s@)));
    }
    true
}

fn status_byte(s: Status) -> (r: u8)
    ensures
        r == status_code(s),
{
    match s {
        Status::Planned => 0,
        Status::Triggered => 1,
        Status::Executed => 2,
        Status::Failed => 3,
    }
}

/// Two big-endian byte pairs reading as the same value are the same bytes.
proof fn lemma_be16_pair_eq(x0: u8, x1: u8, y0: u8, y1: u8)
    requires
        be16_val(x0, x1) == be16_val(y0, y1),
    ensures
        x0 == y0 && x1 == y1,
{
    lemma_be16_val_roundtrip(x0, x1);
    lemma_be16_val_roundtrip(y0, y1);
    assert(seq![x0, x1] == seq![y0, y1]);
    assert(seq![x0, x1][0] == seq![y0, y1][0]);
    assert(seq![x0, x1][1] == seq![y0, y1][1]);
}

/// Decode a rule entry: data starts with the rule tag byte.
#[verifier::rlimit(100)]
#[verifier::spinoff_prover]
fn decode_rule(data: &[u8]) -> (r: DecodeResult)
    requires
        data@.len() >= 1,
        data@[0] == 1,
    ensures
        match r {
            Ok(d) => valid_entry(d@) && spec_encode_entry(d@) == data@,
            Err(_) => no_entry_encodes(data@),
        },
{
    let (identifier, next1) = match read_sized(data, 1) {
        Some(p) => p,
        None => {
            proof {
                assert forall|e: EntryV| valid_entry(e) implies spec_encode_entry(e) != data@ by {
                    match e {
                        EntryV::Job(j) => lemma_job_shape(j),
                        EntryV::Rule(rr) => {
                            lemma_rule_shape(rr);
                            encode_utf8_valid_utf8(rr.identifier);
                            encode_utf8_valid_utf8(rr.pattern);
                            match rr.runner {
                                RunnerV::Shell { command } => {
                                    encode_utf8_valid_utf8(command);
                                },
                                RunnerV::Amqp { dsn, exchange, routing_key } => {
                                    encode_utf8_valid_utf8(dsn);
                                    encode_utf8_valid_utf8(exchange);
                                    encode_utf8_valid_utf8(routing_key);
                                },
                            }
                        },
                    }
                }
            }
            return Err(DecodeError::InvalidData);
        },
    };
    let (pattern, next2) = match read_sized(data, next1) {
        Some(p) => p,
        None => {
            proof {
                assert forall|e: EntryV| valid_entry(e) implies spec_encode_entry(e) != data@ by {
                    match e {
                        EntryV::Job(j) => lemma_job_shape(j),
                        EntryV::Rule(rr) => {
                            lemma_rule_shape(rr);
                            encode_utf8_valid_utf8(rr.identifier);
                            encode_utf8_valid_utf8(rr.pattern);
                            match rr.runner {
                                RunnerV::Shell { command } => {
                                    encode_utf8_valid_utf8(command);
                                },
                                RunnerV::Amqp { dsn, exchange, routing_key } => {
                                    encode_utf8_valid_utf8(dsn);
                                    encode_utf8_valid_utf8(exchange);
                                    encode_utf8_valid_utf8(routing_key);
                                },
                            }
                        },
                    }
                }
            }
            return Err(DecodeError::InvalidData);
        },
    };
    if next2 >= data.len() {
        proof {
            assert forall|e: EntryV| valid_entry(e) implies spec_encode_entry(e) != data@ by {
                match e {
                    EntryV::Job(j) => lemma_job_shape(j),
                    EntryV::Rule(rr) => {
                        lemma_rule_shape(rr);
                        encode_utf8_valid_utf8(rr.identifier);
                        encode_utf8_valid_utf8(rr.pattern);
                        match rr.runner {
                            RunnerV::Shell { command } => {
                                encode_utf8_valid_utf8(command);
                            },
                            RunnerV::Amqp { dsn, exchange, routing_key } => {
                                encode_utf8_valid_utf8(dsn);
                                encode_utf8_valid_utf8(exchange);
                                encode_utf8_valid_utf8(routing_key);
                            },
                        }
                    },
                }
            }
        }
        return Err(DecodeError::InvalidData);
    }
    let rtag = *vstd::slice::slice_index_get(data, next2);
    if rtag == 0 {
        decode_rule_shell(data, identifier, pattern, next1, next2)
    } else if rtag == 1 {
        decode_rule_amqp(data, identifier, pattern, next1, next2)
    } else {
        proof {
            assert forall|e: EntryV| valid_entry(e) implies spec_encode_entry(e) != data@ by {
                match e {
                    EntryV::Job(j) => lemma_job_shape(j),
                    EntryV::Rule(rr) => {
                        lemma_rule_shape(rr);
                        encode_utf8_valid_utf8(rr.identifier);
                        encode_utf8_valid_utf8(rr.pattern);
                        match rr.runner {
                            RunnerV::Shell { command } => {
                                encode_utf8_valid_utf8(command);
                            },
                            RunnerV::Amqp { dsn, exchange, routing_key } => {
                                encode_utf8_valid_utf8(dsn);
                                encode_utf8_valid_utf8(exchange);
                                encode_utf8_valid_utf8(routing_key);
                            },
                        }
                    },
                }
            }
        }
        Err(DecodeError::InvalidData)
    }
}


/// Two sequences agreeing on a subrange agree pointwise there.
proof fn lemma_aligned_segment(a: Seq<u8>, b: Seq<u8>, lo: int, hi: int)
    requires
        0 <= lo <= hi <= a.len(),
        hi <= b.len(),
        a.subrange(lo, hi) == b.subrange(lo, hi),
    ensures
        forall|k: int| lo <= k < hi ==> #[trigger] a[k] == b[k],
{
    assert forall|k: int| lo <= k < hi implies #[trigger] a[k] == b[k] by {
        assert(a.subrange(lo, hi)[k - lo] == a[k]);
        assert(b.subrange(lo, hi)[k - lo] == b[k]);
    }
}

/// No rule entry encodes to bytes whose shell-runner tail is malformed: the
/// command block is truncated, not valid UTF-8, or not the end of the data.
#[verifier::rlimit(100)]
#[verifier::spinoff_prover]
proof fn lemma_rule_shell_err_tail(data: Seq<u8>, next1: int, next2: int)
    requires
        data.len() >= 1,
        data[0] == 1,
        3 <= data.len(),
        next1 == 3 + be16_val(data[1], data[2]),
        next1 + 2 <= data.len(),
        next2 == next1 + 2 + be16_val(data[next1], data[next1 + 1]),
        next2 < data.len(),
        data[next2] == 0,
        ({
            let m3 = be16_val(data[next2 + 1], data[next2 + 2]) as int;
            ||| next2 + 3 > data.len()
            ||| next2 + 3 + m3 > data.len()
            ||| !valid_utf8(data.subrange(next2 + 3, next2 + 3 + m3))
            ||| next2 + 3 + m3 != data.len()
        }),
    ensures
        no_entry_encodes(data),
{
    assert forall|e: EntryV| valid_entry(e) implies spec_encode_entry(e) != data by {
        match e {
            EntryV::Job(j) => lemma_job_shape(j),
            EntryV::Rule(rr) => {
                lemma_rule_shape(rr);
                let b = spec_encode_rule(rr);
                if b == data {
                    let n1r = str_bytes(rr.identifier).len() as int;
                    let n2r = str_bytes(rr.pattern).len() as int;
                    assert(be16_val(data[1], data[2]) == n1r);
                    assert(next1 == 3 + n1r);
                    assert(be16_val(data[next1], data[next1 + 1]) == n2r);
                    assert(next2 == 5 + n1r + n2r);
                    assert(runner_tag(rr.runner) == data[next2]);
                    match rr.runner {
                        RunnerV::Shell { command } => {
                            let n3r = str_bytes(command).len() as int;
                            assert(be16_val(data[next2 + 1], data[next2 + 2]) == n3r);
                            assert(data.len() == 8 + n1r + n2r + n3r);
                            assert(data.subrange(next2 + 3, next2 + 3 + n3r) == str_bytes(
                                command,
                            ));
                            encode_utf8_valid_utf8(command);
                            assert(false);
                        },
                        RunnerV::Amqp { .. } => {
                            assert(false);
                        },
                    }
                }
            },
        }
    }
}

/// No rule entry encodes to bytes whose AMQP-runner tail is malformed: one of
/// the three blocks is truncated, not valid UTF-8, or the last block is not
/// the end of the data.
#[verifier::rlimit(100)]
#[verifier::spinoff_prover]
proof fn lemma_rule_amqp_err_tail(data: Seq<u8>, next1: int, next2: int)
    requires
        data.len() >= 1,
        data[0] == 1,
        3 <= data.len(),
        next1 == 3 + be16_val(data[1], data[2]),
        next1 + 2 <= data.len(),
        next2 == next1 + 2 + be16_val(data[next1], data[next1 + 1]),
        next2 < data.len(),
        data[next2] == 1,
        ({
            let m3 = be16_val(data[next2 + 1], data[next2 + 2]) as int;
            let p3 = next2 + 3 + m3;
            let m4 = be16_val(data[p3], data[p3 + 1]) as int;
            let p4 = p3 + 2 + m4;
            let m5 = be16_val(data[p4], data[p4 + 1]) as int;
            let p5 = p4 + 2 + m5;
            ||| next2 + 3 > data.len()
            ||| p3 > data.len()
            ||| !valid_utf8(data.subrange(next2 + 3, p3))
            ||| p3 + 2 > data.len()
            ||| p4 > data.len()
            ||| !valid_utf8(data.subrange(p3 + 2, p4))
            ||| p4 + 2 > data.len()
            ||| p5 > data.len()
            ||| !valid_utf8(data.subrange(p4 + 2, p5))
            ||| p5 != data.len()
        }),
    ensures
        no_entry_encodes(data),
{
    assert forall|e: EntryV| valid_entry(e) implies spec_encode_entry(e) != data by {
        match e {
            EntryV::Job(j) => lemma_job_shape(j),
            EntryV::Rule(rr) => {
                lemma_rule_shape(rr);
                let b = spec_encode_rule(rr);
                if b == data {
                    let n1r = str_bytes(rr.identifier).len() as int;
                    let n2r = str_bytes(rr.pattern).len() as int;
                    assert(be16_val(data[1], data[2]) == n1r);
                    assert(next1 == 3 + n1r);
                    assert(be16_val(data[next1], data[next1 + 1]) == n2r);
                    assert(next2 == 5 + n1r + n2r);
                    assert(runner_tag(rr.runner) == data[next2]);
                    match rr.runner {
                        RunnerV::Shell { .. } => {
                            assert(false);
                        },
                        RunnerV::Amqp { dsn, exchange, routing_key } => {
                            let n3r = str_bytes(dsn).len() as int;
                            let n4r = str_bytes(exchange).len() as int;
                            let n5r = str_bytes(routing_key).len() as int;
                            assert(be16_val(data[next2 + 1], data[next2 + 2]) == n3r);
                            let p3 = next2 + 3 + n3r;
                            assert(be16_val(data[p3], data[p3 + 1]) == n4r);
                            let p4 = p3 + 2 + n4r;
                            assert(be16_val(data[p4], data[p4 + 1]) == n5r);
                            let p5 = p4 + 2 + n5r;
                            assert(data.len() == 12 + n1r + n2r + n3r + n4r + n5r);
                            assert(p5 == data.len());
                            assert(data.subrange(next2 + 3, p3) == str_bytes(dsn));
                            assert(data.subrange(p3 + 2, p4) == str_bytes(exchange));
                            assert(data.subrange(p4 + 2, p5) == str_bytes(routing_key));
                            encode_utf8_valid_utf8(dsn);
                            encode_utf8_valid_utf8(exchange);
                            encode_utf8_valid_utf8(routing_key);
                            assert(false);
                        },
                    }
                }
            },
        }
    }
}

/// A rule with a shell runner whose parts match the given byte layout encodes
/// exactly to those bytes.
#[verifier::rlimit(100)]
#[verifier::spinoff_prover]
proof fn lemma_rule_shell_ok(data: Seq<u8>, rv: RuleV, next1: int, next2: int, next3: int)
    requires
        data.len() >= 1,
        data[0] == 1,
        3 <= data.len(),
        next1 == 3 + be16_val(data[1], data[2]),
        next1 + 2 <= data.len(),
        next2 == next1 + 2 + be16_val(data[next1], data[next1 + 1]),
        next2 < data.len(),
        data[next2] == 0,
        next3 == next2 + 3 + be16_val(data[next2 + 1], data[next2 + 2]),
        next3 == data.len(),
        str_bytes(rv.identifier) == data.subrange(3, next1),
        str_bytes(rv.pattern) == data.subrange(next1 + 2, next2),
        rv.runner is Shell,
        str_bytes(rv.runner->Shell_command) == data.subrange(next2 + 3, next3),
    ensures
        valid_rule(rv),
        spec_encode_rule(rv) == data,
{
    let n1 = next1 - 3;
    let n2 = next2 - next1 - 2;
    let n3 = next3 - next2 - 3;
    assert(str_bytes(rv.identifier).len() == n1);
    assert(str_bytes(rv.pattern).len() == n2);
    assert(str_bytes(rv.runner->Shell_command).len() == n3);
    lemma_rule_shape(rv);
    let enc = spec_encode_rule(rv);
    assert(next1 == 3 + n1 && next2 == 5 + n1 + n2 && next3 == 8 + n1 + n2 + n3);
    assert(enc.len() == 8 + n1 + n2 + n3);
    assert(enc.len() == data.len());
    lemma_be16_pair_eq(enc[1], enc[2], data[1], data[2]);
    lemma_be16_pair_eq(enc[3 + n1], enc[4 + n1], data[next1], data[next1 + 1]);
    lemma_be16_pair_eq(enc[6 + n1 + n2], enc[7 + n1 + n2], data[next2 + 1], data[next2 + 2]);
    assert(enc[5 + n1 + n2] == data[next2]);
    assert(enc.subrange(3, 3 + n1) == data.subrange(3, next1));
    assert(enc.subrange(5 + n1, 5 + n1 + n2) == data.subrange(next1 + 2, next2));
    assert(enc.subrange(8 + n1 + n2, 8 + n1 + n2 + n3) == data.subrange(next2 + 3, next3));
    assert forall|k: int| 0 <= k < enc.len() implies enc[k] == data[k] by {
        if k == 0 {
        } else if k == 1 || k == 2 {
        } else if k < next1 {
            assert(enc.subrange(3, 3 + n1)[k - 3] == enc[k]);
            assert(data.subrange(3, next1)[k - 3] == data[k]);
        } else if k < next1 + 2 {
        } else if k < next2 {
            assert(enc.subrange(5 + n1, 5 + n1 + n2)[k - (5 + n1)] == enc[k]);
            assert(data.subrange(next1 + 2, next2)[k - (next1 + 2)] == data[k]);
        } else if k == next2 {
        } else if k < next2 + 3 {
        } else {
            assert(enc.subrange(8 + n1 + n2, 8 + n1 + n2 + n3)[k - (8 + n1 + n2)] == enc[k]);
            assert(data.subrange(next2 + 3, next3)[k - (next2 + 3)] == data[k]);
        }
    }
    assert(enc =~= data);
}

/// The scalar bytes and string segments of an AMQP rule encoding match the
/// given byte layout.
#[verifier::rlimit(100)]
#[verifier::spinoff_prover]
proof fn lemma_rule_amqp_parts(
    data: Seq<u8>,
    rv: RuleV,
    next1: int,
    next2: int,
    next3: int,
    next4: int,
    next5: int,
)
    requires
        data.len() >= 1,
        data[0] == 1,
        3 <= data.len(),
        next1 == 3 + be16_val(data[1], data[2]),
        next1 + 2 <= data.len(),
        next2 == next1 + 2 + be16_val(data[next1], data[next1 + 1]),
        next2 < data.len(),
        data[next2] == 1,
        next3 == next2 + 3 + be16_val(data[next2 + 1], data[next2 + 2]),
        next3 + 2 <= data.len(),
        next4 == next3 + 2 + be16_val(data[next3], data[next3 + 1]),
        next4 + 2 <= data.len(),
        next5 == next4 + 2 + be16_val(data[next4], data[next4 + 1]),
        next5 == data.len(),
        str_bytes(rv.identifier) == data.subrange(3, next1),
        str_bytes(rv.pattern) == data.subrange(next1 + 2, next2),
        rv.runner is Amqp,
        str_bytes(rv.runner->Amqp_dsn) == data.subrange(next2 + 3, next3),
        str_bytes(rv.runner->Amqp_exchange) == data.subrange(next3 + 2, next4),
        str_bytes(rv.runner->Amqp_routing_key) == data.subrange(next4 + 2, next5),
    ensures
        valid_rule(rv),
        ({
            let enc = spec_encode_rule(rv);
            &&& enc.len() == data.len()
            &&& enc[0] == data[0]
            &&& enc[1] == data[1]
            &&& enc[2] == data[2]
            &&& enc[next1] == data[next1]
            &&& enc[next1 + 1] == data[next1 + 1]
            &&& enc[next2] == data[next2]
            &&& enc[next2 + 1] == data[next2 + 1]
            &&& enc[next2 + 2] == data[next2 + 2]
            &&& enc[next3] == data[next3]
            &&& enc[next3 + 1] == data[next3 + 1]
            &&& enc[next4] == data[next4]
            &&& enc[next4 + 1] == data[next4 + 1]
            &&& enc.subrange(3, next1) == data.subrange(3, next1)
            &&& enc.subrange(next1 + 2, next2) == data.subrange(next1 + 2, next2)
            &&& enc.subrange(next2 + 3, next3) == data.subrange(next2 + 3, next3)
            &&& enc.subrange(next3 + 2, next4) == data.subrange(next3 + 2, next4)
            &&& enc.subrange(next4 + 2, next5) == data.subrange(next4 + 2, next5)
        }),
{
    let n1 = next1 - 3;
    let n2 = next2 - next1 - 2;
    let n3 = next3 - next2 - 3;
    let n4 = next4 - next3 - 2;
    let n5 = next5 - next4 - 2;
    assert(str_bytes(rv.identifier).len() == n1);
    assert(str_bytes(rv.pattern).len() == n2);
    assert(str_bytes(rv.runner->Amqp_dsn).len() == n3);
    assert(str_bytes(rv.runner->Amqp_exchange).len() == n4);
    assert(str_bytes(rv.runner->Amqp_routing_key).len() == n5);
    lemma_rule_shape(rv);
    let enc = spec_encode_rule(rv);
    assert(next1 == 3 + n1 && next2 == 5 + n1 + n2 && next3 == 8 + n1 + n2 + n3);
    assert(next4 == 10 + n1 + n2 + n3 + n4 && next5 == 12 + n1 + n2 + n3 + n4 + n5);
    assert(enc.len() == 12 + n1 + n2 + n3 + n4 + n5);
    lemma_be16_pair_eq(enc[1], enc[2], data[1], data[2]);
    lemma_be16_pair_eq(enc[3 + n1], enc[4 + n1], data[next1], data[next1 + 1]);
    lemma_be16_pair_eq(enc[6 + n1 + n2], enc[7 + n1 + n2], data[next2 + 1], data[next2 + 2]);
    lemma_be16_pair_eq(
        enc[8 + n1 + n2 + n3],
        enc[9 + n1 + n2 + n3],
        data[next3],
        data[next3 + 1],
    );
    lemma_be16_pair_eq(
        enc[10 + n1 + n2 + n3 + n4],
        enc[11 + n1 + n2 + n3 + n4],
        data[next4],
        data[next4 + 1],
    );
    assert(enc[5 + n1 + n2] == data[next2]);
}

/// Two equal-length sequences that agree on each scalar byte and each string
/// segment of the AMQP rule layout are equal.
#[verifier::rlimit(100)]
#[verifier::spinoff_prover]
proof fn lemma_seq_eq_from_amqp_segments(
    a: Seq<u8>,
    b: Seq<u8>,
    next1: int,
    next2: int,
    next3: int,
    next4: int,
    next5: int,
)
    requires
        a.len() == b.len(),
        3 <= next1,
        next1 + 2 <= next2,
        next2 + 3 <= next3,
        next3 + 2 <= next4,
        next4 + 2 <= next5,
        next5 == a.len(),
        a[0] == b[0],
        a[1] == b[1],
        a[2] == b[2],
        a[next1] == b[next1],
        a[next1 + 1] == b[next1 + 1],
        a[next2] == b[next2],
        a[next2 + 1] == b[next2 + 1],
        a[next2 + 2] == b[next2 + 2],
        a[next3] == b[next3],
        a[next3 + 1] == b[next3 + 1],
        a[next4] == b[next4],
        a[next4 + 1] == b[next4 + 1],
        a.subrange(3, next1) == b.subrange(3, next1),
        a.subrange(next1 + 2, next2) == b.subrange(next1 + 2, next2),
        a.subrange(next2 + 3, next3) == b.subrange(next2 + 3, next3),
        a.subrange(next3 + 2, next4) == b.subrange(next3 + 2, next4),
        a.subrange(next4 + 2, next5) == b.subrange(next4 + 2, next5),
    ensures
        a == b,
{
    lemma_aligned_segment(a, b, 3, next1);
    lemma_aligned_segment(a, b, next1 + 2, next2);
    lemma_aligned_segment(a, b, next2 + 3, next3);
    lemma_aligned_segment(a, b, next3 + 2, next4);
    lemma_aligned_segment(a, b, next4 + 2, next5);
    assert forall|k: int| 0 <= k < a.len() implies a[k] == b[k] by {
        if 3 <= k < next1 {
            assert(a[k] == b[k]);
        } else if next1 + 2 <= k < next2 {
            assert(a[k] == b[k]);
        } else if next2 + 3 <= k < next3 {
            assert(a[k] == b[k]);
        } else if next3 + 2 <= k < next4 {
            assert(a[k] == b[k]);
        } else if next4 + 2 <= k < next5 {
            assert(a[k] == b[k]);
        }
    }
    assert(a =~= b);
}

/// A rule with an AMQP runner whose parts match the given byte layout encodes
/// exactly to those bytes.
#[verifier::rlimit(100)]
#[verifier::spinoff_prover]
proof fn lemma_rule_amqp_ok(
    data: Seq<u8>,
    rv: RuleV,
    next1: int,
    next2: int,
    next3: int,
    next4: int,
    next5: int,
)
    requires
        data.len() >= 1,
        data[0] == 1,
        3 <= data.len(),
        next1 == 3 + be16_val(data[1], data[2]),
        next1 + 2 <= data.len(),
        next2 == next1 + 2 + be16_val(data[next1], data[next1 + 1]),
        next2 < data.len(),
        data[next2] == 1,
        next3 == next2 + 3 + be16_val(data[next2 + 1], data[next2 + 2]),
        next3 + 2 <= data.len(),
        next4 == next3 + 2 + be16_val(data[next3], data[next3 + 1]),
        next4 + 2 <= data.len(),
        next5 == next4 + 2 + be16_val(data[next4], data[next4 + 1]),
        next5 == data.len(),
        str_bytes(rv.identifier) == data.subrange(3, next1),
        str_bytes(rv.pattern) == data.subrange(next1 + 2, next2),
        rv.runner is Amqp,
        str_bytes(rv.runner->Amqp_dsn) == data.subrange(next2 + 3, next3),
        str_bytes(rv.runner->Amqp_exchange) == data.subrange(next3 + 2, next4),
        str_bytes(rv.runner->Amqp_routing_key) == data.subrange(next4 + 2, next5),
    ensures
        valid_rule(rv),
        spec_encode_rule(rv) == data,
{
    lemma_rule_amqp_parts(data, rv, next1, next2, next3, next4, next5);
    lemma_seq_eq_from_amqp_segments(
        spec_encode_rule(rv),
        data,
        next1,
        next2,
        next3,
        next4,
        next5,
    );
}

/// Decode the shell runner tail of a rule entry.
fn decode_rule_shell(
    data: &[u8],
    identifier: String,
    pattern: String,
    next1: usize,
    next2: usize,
) -> (r: DecodeResult)
    requires
        data@.len() >= 1,
        data@[0] == 1,
        3 <= data@.len(),
        next1 == 3 + be16_val(data@[1], data@[2]),
        next1 + 2 <= data@.len(),
        encode_utf8(identifier@) == data@.subrange(3, next1 as int),
        next2 == next1 + 2 + be16_val(data@[next1 as int], data@[next1 + 1]),
        next2 < data@.len(),
        encode_utf8(pattern@) == data@.subrange(next1 + 2, next2 as int),
        data@[next2 as int] == 0,
    ensures
        match r {
            Ok(d) => valid_entry(d@) && spec_encode_entry(d@) == data@,
            Err(_) => no_entry_encodes(data@),
        },
{
    let (command, next3) = match read_sized(data, next2 + 1) {
        Some(p) => p,
        None => {
            proof {
                lemma_rule_shell_err_tail(data@, next1 as int, next2 as int);
            }
            return Err(DecodeError::InvalidData);
        },
    };
    if next3 != data.len() {
        proof {
            lemma_rule_shell_err_tail(data@, next1 as int, next2 as int);
        }
        return Err(DecodeError::InvalidData);
    }
    let d = Decoded::Rule(Rule::new(identifier, pattern, Runner::Shell { command }));
    proof {
        lemma_rule_shell_ok(data@, d@->Rule_0, next1 as int, next2 as int, next3 as int);
    }
    Ok(d)
}

/// Decode the AMQP runner tail of a rule entry.
fn decode_rule_amqp(
    data: &[u8],
    identifier: String,
    pattern: String,
    next1: usize,
    next2: usize,
) -> (r: DecodeResult)
    requires
        data@.len() >= 1,
        data@[0] == 1,
        3 <= data@.len(),
        next1 == 3 + be16_val(data@[1], data@[2]),
        next1 + 2 <= data@.len(),
        encode_utf8(identifier@) == data@.subrange(3, next1 as int),
        next2 == next1 + 2 + be16_val(data@[next1 as int], data@[next1 + 1]),
        next2 < data@.len(),
        encode_utf8(pattern@) == data@.subrange(next1 + 2, next2 as int),
        data@[next2 as int] == 1,
    ensures
        match r {
            Ok(d) => valid_entry(d@) && spec_encode_entry(d@) == data@,
            Err(_) => no_entry_encodes(data@),
        },
{
    let (dsn, next3) = match read_sized(data, next2 + 1) {
        Some(p) => p,
        None => {
            proof {
                lemma_rule_amqp_err_tail(data@, next1 as int, next2 as int);
            }
            return Err(DecodeError::InvalidData);
        },
    };
    let (exchange, next4) = match read_sized(data, next3) {
        Some(p) => p,
        None => {
            proof {
                lemma_rule_amqp_err_tail(data@, next1 as int, next2 as int);
            }
            return Err(DecodeError::InvalidData);
        },
    };
    let (routing_key, next5) = match read_sized(data, next4) {
        Some(p) => p,
        None => {
            proof {
                lemma_rule_amqp_err_tail(data@, next1 as int, next2 as int);
            }
            return Err(DecodeError::InvalidData);
        },
    };
    if next5 != data.len() {
        proof {
            lemma_rule_amqp_err_tail(data@, next1 as int, next2 as int);
        }
        return Err(DecodeError::InvalidData);
    }
    let d = Decoded::Rule(
        Rule::new(identifier, pattern, Runner::Amqp { dsn, exchange, routing_key }),
    );
    proof {
        lemma_rule_amqp_ok(
            data@,
            d@->Rule_0,
            next1 as int,
            next2 as int,
            next3 as int,
            next4 as int,
            next5 as int,
        );
    }
    Ok(d)
}


/// Decode a job entry: data starts with the job tag byte.
fn decode_job(data: &[u8]) -> (r: DecodeResult)
    requires
        data@.len() >= 1,
        data@[0] == 0,
    ensures
        match r {
            Ok(d) => valid_entry(d@) && spec_encode_entry(d@) == data@,
            Err(_) => no_entry_encodes(data@),
        },
{
    let (identifier, next) = match read_sized(data, 1) {
        Some(p) => p,
        None => {
            proof {
                assert forall|e: EntryV| valid_entry(e) implies spec_encode_entry(e) != data@ by {
                    match e {
                        EntryV::Job(j) => {
                            lemma_job_shape(j);
                            encode_utf8_valid_utf8(j.identifier);
                        },
                        EntryV::Rule(rr) => {
                            lemma_rule_shape(rr);
                        },
                    }
                }
            }
            return Err(DecodeError::InvalidData);
        },
    };
    if data.len() - next != 9 {
        proof {
            assert forall|e: EntryV| valid_entry(e) implies spec_encode_entry(e) != data@ by {
                match e {
                    EntryV::Job(j) => {
                        lemma_job_shape(j);
                    },
                    EntryV::Rule(rr) => {
                        lemma_rule_shape(rr);
                    },
                }
            }
        }
        return Err(DecodeError::InvalidData);
    }
    let ts_bits = read_be64(data, next);
    let execution = #[verifier::truncate] (ts_bits as i64);
    let stb = *vstd::slice::slice_index_get(data, next + 8);
    let status = if stb == 0 {
        Status::Planned
    } else if stb == 1 {
        Status::Triggered
    } else if stb == 2 {
        Status::Executed
    } else if stb == 3 {
        Status::Failed
    } else {
        proof {
            assert forall|e: EntryV| valid_entry(e) implies spec_encode_entry(e) != data@ by {
                match e {
                    EntryV::Job(j) => {
                        lemma_job_shape(j);
                    },
                    EntryV::Rule(rr) => {
                        lemma_rule_shape(rr);
                    },
                }
            }
        }
        return Err(DecodeError::InvalidData);
    };
    let d = Decoded::Job(Job::new(identifier, execution, status));
    proof {
        let n = next - 3;
        let jv = d@->Job_0;
        lemma_job_shape(jv);
        let enc = spec_encode_job(jv);
        assert(str_bytes(jv.identifier) == data@.subrange(3, next as int));
        assert(str_bytes(jv.identifier).len() == n);
        assert(enc.len() == data@.len());
        lemma_be16_val_roundtrip(enc[1], enc[2]);
        lemma_be16_val_roundtrip(data@[1], data@[2]);
        assert(be16_val(data@[1], data@[2]) == n);
        assert(seq![enc[1], enc[2]] == seq![data@[1], data@[2]]);
        assert(enc[1] == seq![enc[1], enc[2]][0] && enc[2] == seq![enc[1], enc[2]][1]);
        assert(enc[1] == data@[1] && enc[2] == data@[2]);
        lemma_u64_i64_roundtrip(ts_bits);
        lemma_be64_val_roundtrip(data@.subrange(next as int, next + 8));
        assert(jv.execution as u64 == ts_bits);
        assert(be64(ts_bits) == data@.subrange(next as int, next + 8));
        assert(enc.subrange(3 + n, 11 + n) == data@.subrange(next as int, next + 8));
        assert(enc[11 + n] == status_code(jv.status));
        assert(status_code(jv.status) == data@[next + 8]);
        assert forall|k: int| 0 <= k < enc.len() implies enc[k] == data@[k] by {
            if k == 0 {
            } else if k == 1 || k == 2 {
            } else if k < 3 + n {
                assert(enc.subrange(3, 3 + n)[k - 3] == enc[k]);
                assert(data@.subrange(3, next as int)[k - 3] == data@[k]);
            } else if k < 11 + n {
                assert(enc.subrange(3 + n, 11 + n)[k - (3 + n)] == enc[k]);
                assert(data@.subrange(next as int, next + 8)[k - (3 + n)] == data@[k]);
            } else {
            }
        }
        assert(enc =~= data@);
    }
    Ok(d)
}

/// Encode values that must be stored in a file as decodable binary.
pub struct Encoder {}

impl Encoder {
    /// Create a new encoder.
    pub fn new() -> Encoder {
        Encoder {}
    }

    /// Encode the given encodable value into an array of bytes. Encoding
    /// succeeds exactly when every string of the value is at most 65535 bytes
    /// long in UTF-8.
    pub fn encode(&self, value: Encodable) -> (r: EncodeResult)
        ensures
            r is Ok <==> valid_entry(value@),
            r is Ok ==> r.unwrap()@ == spec_encode_entry(value@),
    {
        match value {
            Encodable::Job(job) => self.encode_job(job),
            Encodable::Rule(rule) => self.encode_rule(rule),
        }
    }

    /// Decode the given data into a Decoded enum. Decoding succeeds exactly
    /// when the data is the encoding of some entry, and then returns that
    /// entry: the encoding is injective (see [`lemma_encode_injective`]).
    pub fn decode(&self, data: &[u8]) -> (r: DecodeResult)
        ensures
            match r {
                Ok(d) => valid_entry(d@) && spec_encode_entry(d@) == data@,
                Err(_) => no_entry_encodes(data@),
            },
    {
        if data.len() == 0 {
            proof {
                assert forall|e: EntryV| valid_entry(e) implies spec_encode_entry(e) != data@ by {
                    match e {
                        EntryV::Job(j) => lemma_job_shape(j),
                        EntryV::Rule(rr) => {
                            lemma_rule_shape(rr);
                            encode_utf8_valid_utf8(rr.identifier);
                            encode_utf8_valid_utf8(rr.pattern);
                            match rr.runner {
                                RunnerV::Shell { command } => {
                                    encode_utf8_valid_utf8(command);
                                },
                                RunnerV::Amqp { dsn, exchange, routing_key } => {
                                    encode_utf8_valid_utf8(dsn);
                                    encode_utf8_valid_utf8(exchange);
                                    encode_utf8_valid_utf8(routing_key);
                                },
                            }
                        },
                    }
                }
            }
            return Err(DecodeError::InvalidData);
        }
        let tag = *vstd::slice::slice_index_get(data, 0);
        if tag == 0 {
            decode_job(data)
        } else if tag == 1 {
            decode_rule(data)
        } else {
            proof {
                assert forall|e: EntryV| valid_entry(e) implies spec_encode_entry(e) != data@ by {
                    match e {
                        EntryV::Job(j) => lemma_job_shape(j),
                        EntryV::Rule(rr) => {
                            lemma_rule_shape(rr);
                            encode_utf8_valid_utf8(rr.identifier);
                            encode_utf8_valid_utf8(rr.pattern);
                            match rr.runner {
                                RunnerV::Shell { command } => {
                                    encode_utf8_valid_utf8(command);
                                },
                                RunnerV::Amqp { dsn, exchange, routing_key } => {
                                    encode_utf8_valid_utf8(dsn);
                                    encode_utf8_valid_utf8(exchange);
                                    encode_utf8_valid_utf8(routing_key);
                                },
                            }
                        },
                    }
                }
            }
            Err(DecodeError::InvalidData)
        }
    }

    /// Encode the given job into an array of bytes.
    fn encode_job(&self, job: &Job) -> (r: EncodeResult)
        ensures
            r is Ok <==> valid_job(job@),
            r is Ok ==> r.unwrap()@ == spec_encode_job(job@),
    {
        let mut out: Vec<u8> = Vec::new();
        out.push(0u8);
        if !push_sized_str(&mut out, job.identifier.as_str()) {
            return Err(());
        }
        push_be64(&mut out, #[verifier::truncate] (job.execution as u64));
        out.push(status_byte(job.status));
        proof {
            assert(out@ =~= spec_encode_job(job@));
        }
        Ok(out)
    }

    /// Encode the given rule into an array of bytes.
    fn encode_rule(&self, rule: &Rule) -> (r: EncodeResult)
        ensures
            r is Ok <==> valid_rule(rule@),
            r is Ok ==> r.unwrap()@ == spec_encode_rule(rule@),
    {
        let mut out: Vec<u8> = Vec::new();
        out.push(1u8);
        if !push_sized_str(&mut out, rule.identifier.as_str()) {
            return Err(());
        }
        if !push_sized_str(&mut out, rule.pattern.as_str()) {
            return Err(());
        }
        match &rule.runner {
            Runner::Shell { command } => {
                out.push(0u8);
                if !push_sized_str(&mut out, command.as_str()) {
                    return Err(());
                }
            },
            Runner::Amqp { dsn, exchange, routing_key } => {
                out.push(1u8);
                if !push_sized_str(&mut out, dsn.as_str()) {
                    return Err(());
                }
                if !push_sized_str(&mut out, exchange.as_str()) {
                    return Err(());
                }
                if !push_sized_str(&mut out, routing_key.as_str()) {
                    return Err(());
                }
            },
        }
        proof {
            assert(out@ =~= spec_encode_rule(rule@));
        }
        Ok(out)
    }
}

} // verus!
