//! Durable storage model: log replay and online compaction.
//!
//! The write-ahead log is an ordered sequence of entries, each recording one
//! job or rule mutation. Replaying the log from the start rebuilds the store:
//! the last entry for each subject wins. Compaction keeps, for each subject,
//! only its newest entry, preserving the order of the kept entries.

use vstd::prelude::*;
use crate::codec::{Decoded, EntryV};
use crate::job::JobV;
use crate::rule::RuleV;
use crate::text::str_eq;

verus! {

/// The subject of an entry: the kind of the record and the identifier it
/// addresses. Subjects are the unit of last-writer-wins in compaction: a job
/// and a rule with the same identifier have different subjects.
pub open spec fn subject_of(e: EntryV) -> (bool, Seq<char>) {
    match e {
        EntryV::Job(j) => (true, j.identifier),
        EntryV::Rule(r) => (false, r.identifier),
    }
}

/// The store rebuilt from a log: the last job entry for each job identifier
/// and the last rule entry for each rule identifier.
pub ghost struct StoreV {
    pub jobs: Map<Seq<char>, JobV>,
    pub rules: Map<Seq<char>, RuleV>,
}

/// The empty store.
pub open spec fn empty_store() -> StoreV {
    StoreV { jobs: Map::empty(), rules: Map::empty() }
}

/// Apply one entry to a store: record the job or rule under its identifier.
pub open spec fn apply_entry(s: StoreV, e: EntryV) -> StoreV {
    match e {
        EntryV::Job(j) => StoreV { jobs: s.jobs.insert(j.identifier, j), rules: s.rules },
        EntryV::Rule(r) => StoreV { jobs: s.jobs, rules: s.rules.insert(r.identifier, r) },
    }
}

/// Replay a log from the start: apply each entry in order.
pub open spec fn replay(log: Seq<EntryV>) -> StoreV
    decreases log.len(),
{
    if log.len() == 0 {
        empty_store()
    } else {
        apply_entry(replay(log.drop_last()), log.last())
    }
}

/// Law: persist-then-apply. Appending one entry to the log and replaying it
/// yields exactly the store obtained by applying the entry to the replayed
/// previous log: recovery from the log alone reproduces the in-memory state.
pub proof fn lemma_persist_then_apply(log: Seq<EntryV>, e: EntryV)
    ensures
        replay(log.push(e)) == apply_entry(replay(log), e),
{
    assert(log.push(e).drop_last() =~= log);
    assert(log.push(e).last() == e);
}

/// The log without the entries carrying the given subject.
pub open spec fn keep_others(log: Seq<EntryV>, subj: (bool, Seq<char>)) -> Seq<EntryV>
    decreases log.len(),
{
    if log.len() == 0 {
        log
    } else if subject_of(log.last()) == subj {
        keep_others(log.drop_last(), subj)
    } else {
        keep_others(log.drop_last(), subj).push(log.last())
    }
}

/// The compacted log: for each subject only its newest entry is kept, in the
/// order in which those newest entries appear.
pub open spec fn compact(log: Seq<EntryV>) -> Seq<EntryV>
    decreases log.len(),
{
    if log.len() == 0 {
        log
    } else {
        keep_others(compact(log.drop_last()), subject_of(log.last())).push(log.last())
    }
}

/// The store with the given subject's record removed.
pub open spec fn remove_subject(s: StoreV, subj: (bool, Seq<char>)) -> StoreV {
    if subj.0 {
        StoreV { jobs: s.jobs.remove(subj.1), rules: s.rules }
    } else {
        StoreV { jobs: s.jobs, rules: s.rules.remove(subj.1) }
    }
}

/// Dropping a subject's entries from the log drops exactly that subject's
/// record from the replayed store.
pub proof fn lemma_replay_keep_others(log: Seq<EntryV>, subj: (bool, Seq<char>))
    ensures
        replay(keep_others(log, subj)) == remove_subject(replay(log), subj),
    decreases log.len(),
{
    if log.len() == 0 {
        assert(replay(keep_others(log, subj)).jobs =~= remove_subject(replay(log), subj).jobs);
        assert(replay(keep_others(log, subj)).rules =~= remove_subject(replay(log), subj).rules);
    } else {
        lemma_replay_keep_others(log.drop_last(), subj);
        let e = log.last();
        if subject_of(e) == subj {
            assert(replay(keep_others(log, subj)).jobs =~= remove_subject(
                replay(log),
                subj,
            ).jobs);
            assert(replay(keep_others(log, subj)).rules =~= remove_subject(
                replay(log),
                subj,
            ).rules);
        } else {
            lemma_persist_then_apply(keep_others(log.drop_last(), subj), e);
            assert(replay(keep_others(log, subj)).jobs =~= remove_subject(
                replay(log),
                subj,
            ).jobs);
            assert(replay(keep_others(log, subj)).rules =~= remove_subject(
                replay(log),
                subj,
            ).rules);
        }
    }
}

/// Law: last-writer-wins compaction preserves the replayed state. The store
/// rebuilt from the log equals the store rebuilt from the compacted log.
pub proof fn lemma_compaction_preserves(log: Seq<EntryV>)
    ensures
        replay(compact(log)) == replay(log),
    decreases log.len(),
{
    if log.len() > 0 {
        let e = log.last();
        let subj = subject_of(e);
        lemma_compaction_preserves(log.drop_last());
        lemma_replay_keep_others(compact(log.drop_last()), subj);
        lemma_persist_then_apply(keep_others(compact(log.drop_last()), subj), e);
        assert(replay(compact(log)).jobs =~= replay(log).jobs);
        assert(replay(compact(log)).rules =~= replay(log).rules);
    }
}

/// True when no two entries in the log carry the same subject.
pub open spec fn unique_subjects(log: Seq<EntryV>) -> bool {
    forall|i: int, j: int|
        0 <= i < j < log.len() ==> subject_of(log[i]) != subject_of(log[j])
}

/// Entries kept by dropping a subject come from the log and carry other
/// subjects; distinct subjects stay distinct.
proof fn lemma_keep_others_props(log: Seq<EntryV>, subj: (bool, Seq<char>))
    requires
        unique_subjects(log),
    ensures
        unique_subjects(keep_others(log, subj)),
        forall|k: int|
            0 <= k < keep_others(log, subj).len() ==> subject_of(
                #[trigger] keep_others(log, subj)[k],
            ) != subj,
        forall|k: int|
            0 <= k < keep_others(log, subj).len() ==> log.contains(
                #[trigger] keep_others(log, subj)[k],
            ),
    decreases log.len(),
{
    if log.len() > 0 {
        assert(unique_subjects(log.drop_last()));
        assert(forall|j: int|
            0 <= j < log.drop_last().len() ==> #[trigger] log.drop_last()[j] == log[j]);
        lemma_keep_others_props(log.drop_last(), subj);
        let r = keep_others(log, subj);
        let r0 = keep_others(log.drop_last(), subj);
        assert forall|k: int| 0 <= k < r0.len() implies log.contains(#[trigger] r0[k]) by {
            let j = choose|j: int| 0 <= j < log.drop_last().len() && log.drop_last()[j] == r0[k];
            assert(log[j] == r0[k]);
            assert(log.contains(log[j]));
        }
        if subject_of(log.last()) != subj {
            assert(r == r0.push(log.last()));
            assert(log.contains(log[log.len() - 1]));
            // the appended entry's subject is absent from the kept prefix
            assert forall|a: int, b: int| 0 <= a < b < r.len() implies subject_of(r[a])
                != subject_of(r[b]) by {
                if b == r.len() - 1 {
                    assert(r[a] == r0[a]);
                    let j = choose|j: int|
                        0 <= j < log.drop_last().len() && log.drop_last()[j] == r0[a];
                    assert(log[j] == r0[a]);
                    assert(subject_of(log[j]) != subject_of(log[log.len() - 1]));
                } else {
                    assert(r[a] == r0[a] && r[b] == r0[b]);
                }
            }
        }
    }
}

/// Law: a compacted log holds at most one entry per subject, so its size is
/// bounded by the number of distinct subjects ever written.
pub proof fn lemma_compact_unique_subjects(log: Seq<EntryV>)
    ensures
        unique_subjects(compact(log)),
    decreases log.len(),
{
    if log.len() > 0 {
        lemma_compact_unique_subjects(log.drop_last());
        let subj = subject_of(log.last());
        lemma_keep_others_props(compact(log.drop_last()), subj);
        let r0 = keep_others(compact(log.drop_last()), subj);
        let r = compact(log);
        assert(r == r0.push(log.last()));
        assert forall|a: int, b: int| 0 <= a < b < r.len() implies subject_of(r[a])
            != subject_of(r[b]) by {
            if b == r.len() - 1 {
                assert(r[a] == r0[a]);
                assert(subject_of(r0[a]) != subj);
            } else {
                assert(r[a] == r0[a] && r[b] == r0[b]);
            }
        }
    }
}

/// The models of a list of decoded entries.
pub open spec fn entry_views(s: Seq<Decoded>) -> Seq<EntryV> {
    s.map_values(|d: Decoded| d@)
}

impl Clone for Decoded {
    fn clone(&self) -> (r: Self)
        ensures
            r == *self,
    {
        match self {
            Decoded::Job(j) => Decoded::Job(j.clone()),
            Decoded::Rule(r) => Decoded::Rule(r.clone()),
        }
    }
}

/// Compare the subjects of two decoded entries.
fn subject_eq(a: &Decoded, b: &Decoded) -> (r: bool)
    ensures
        r == (subject_of(a@) == subject_of(b@)),
{
    match (a, b) {
        (Decoded::Job(x), Decoded::Job(y)) => str_eq(
            x.identifier.as_str(),
            y.identifier.as_str(),
        ),
        (Decoded::Rule(x), Decoded::Rule(y)) => str_eq(
            x.identifier.as_str(),
            y.identifier.as_str(),
        ),
        _ => false,
    }
}

/// The status of the background compaction task.
pub enum Status {
    Success,
    Failure(TaskError),
    Running,
    Lost,
}

pub enum TaskError {
    Failure,
}

pub type TaskResult = Result<(), TaskError>;

#[derive(Debug, PartialEq, Eq, Structural, Clone, Copy)]
pub enum InitializationError {
    InvalidEntry,
    UnreadableFile,
}

#[derive(Debug, PartialEq, Eq, Structural, Clone, Copy)]
pub enum PersistError {
    EncodingFailure,
    WriteFailure,
}

pub type PersistResult = Result<(), PersistError>;

/// The number of entries appended to the logfile that triggers a compaction.
pub const COMPRESSION_THRESHOLD: usize = 5000;

/// Decide whether a compaction should start: the logfile holds at least the
/// threshold of entries and no compaction is in flight.
pub fn should_compress(logfile_size: usize, already_compressing: bool) -> (r: bool)
    ensures
        r == (logfile_size >= COMPRESSION_THRESHOLD && !already_compressing),
{
    !already_compressing && logfile_size >= COMPRESSION_THRESHOLD
}

/// Compact a list of decoded entries: for each subject keep only its newest
/// entry, in the order in which those newest entries appear.
pub fn compress(entries: &Vec<Decoded>) -> (r: Vec<Decoded>)
    ensures
        entry_views(r@) == compact(entry_views(entries@)),
{
    let mut result: Vec<Decoded> = Vec::new();
    let mut i: usize = 0;
    proof {
        assert(entry_views(entries@).len() == entries@.len());
        assert(entry_views(result@) =~= compact(entry_views(entries@).take(0)));
    }
    while i < entries.len()
        invariant
            0 <= i <= entries@.len(),
            entry_views(entries@).len() == entries@.len(),
            entry_views(result@) == compact(entry_views(entries@).take(i as int)),
        decreases entries@.len() - i,
    {
        let ghost before = entry_views(result@);
        let ghost subj = subject_of(entries@[i as int]@);
        // Drop older entries with the same subject.
        let mut kept: Vec<Decoded> = Vec::new();
        let mut k: usize = 0;
        proof {
            assert(entry_views(kept@) =~= keep_others(before.take(0), subj));
        }
        while k < result.len()
            invariant
                before == entry_views(result@),
                before.len() == result@.len(),
                subj == subject_of(entries@[i as int]@),
                0 <= i < entries@.len(),
                0 <= k <= before.len(),
                entry_views(kept@) == keep_others(before.take(k as int), subj),
            decreases before.len() - k,
        {
            proof {
                assert(entry_views(result@)[k as int] == result@[k as int]@);
                assert(before.take(k + 1).drop_last() =~= before.take(k as int));
                assert(before.take(k + 1).last() == before[k as int]);
            }
            if !subject_eq(&result[k], &entries[i]) {
                let ghost kept0 = entry_views(kept@);
                kept.push(result[k].clone());
                proof {
                    assert(entry_views(kept@) =~= kept0.push(before[k as int]));
                }
            }
            k = k + 1;
        }
        proof {
            assert(before.take(before.len() as int) =~= before);
        }
        kept.push(entries[i].clone());
        result = kept;
        proof {
            let taken = entry_views(entries@).take(i + 1);
            assert(taken.drop_last() =~= entry_views(entries@).take(i as int));
            assert(taken.last() == entries@[i as int]@);
            assert(entry_views(result@) =~= keep_others(
                compact(entry_views(entries@).take(i as int)),
                subj,
            ).push(entries@[i as int]@));
        }
        i = i + 1;
    }
    proof {
        assert(entry_views(entries@).take(entries@.len() as int) =~= entry_views(entries@));
    }
    result
}

} // verus!
