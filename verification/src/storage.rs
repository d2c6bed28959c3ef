//! A database Storage, memorizing all existing jobs and rules.
//!
//! While the storage itself is in-memory, it models the persistent log it is
//! paired with: every mutation appends one encoded entry to the write-ahead
//! log before it is applied, and replaying the log alone reproduces the
//! in-memory state exactly. The caller writes each prepared record to the
//! logfile before committing the mutation in memory.

use vstd::prelude::*;
use vstd::utf8::encode_utf8;
use crate::codec::{
    spec_encode_job, spec_encode_rule, valid_entry, valid_job, valid_rule, Decoded, Encodable,
    Encoder, EntryV, lemma_job_shape, lemma_rule_shape,
};
use crate::framing::{spec_frame, Encoder as FrameEncoder};
use crate::job::{Job, JobV, Status};
use crate::persistence::{apply_entry, empty_store, entry_views, replay, StoreV};
use crate::rule::{pattern_supports, Rule, RuleV};
use crate::store::{
    first_after, job_views, lemma_jobs_map_contains, lemma_jobs_map_index, lemma_jobs_map_key,
    Storage as JobStorage,
};
use crate::text::str_eq;

verus! {

pub type JobStatus = Status;

#[derive(Debug, PartialEq, Eq, Structural, Clone, Copy)]
pub enum InitializeError {
    UninitializablePersistentStorage,
}

#[derive(Debug, PartialEq, Eq, Structural, Clone, Copy)]
pub enum WriteError {
    PersistenceFailure,
}

pub type WriteResult = Result<(), WriteError>;

/// The models of a list of rules.
pub open spec fn rule_views(s: Seq<Rule>) -> Seq<RuleV> {
    s.map_values(|r: Rule| r@)
}

/// True when no two rules in the list share an identifier.
pub open spec fn unique_rule_ids(s: Seq<RuleV>) -> bool {
    forall|i: int, j: int| 0 <= i < j < s.len() ==> s[i].identifier != s[j].identifier
}

/// The map from identifiers to rule models described by a list of rules; a
/// later entry with the same identifier wins.
pub open spec fn rules_map(s: Seq<RuleV>) -> Map<Seq<char>, RuleV>
    decreases s.len(),
{
    if s.len() == 0 {
        Map::empty()
    } else {
        rules_map(s.drop_last()).insert(s.last().identifier, s.last())
    }
}

pub proof fn lemma_rules_map_contains(s: Seq<RuleV>, id: Seq<char>)
    ensures
        rules_map(s).contains_key(id) <==> exists|i: int|
            0 <= i < s.len() && (#[trigger] s[i]).identifier == id,
    decreases s.len(),
{
    if s.len() > 0 {
        lemma_rules_map_contains(s.drop_last(), id);
        if s.last().identifier == id {
            assert(s[s.len() - 1].identifier == id);
        } else if rules_map(s).contains_key(id) {
            let i = choose|i: int|
                0 <= i < s.drop_last().len() && (#[trigger] s.drop_last()[i]).identifier == id;
            assert(s[i].identifier == id);
        } else if exists|i: int| 0 <= i < s.len() && (#[trigger] s[i]).identifier == id {
            let i = choose|i: int| 0 <= i < s.len() && (#[trigger] s[i]).identifier == id;
            assert(s.drop_last()[i].identifier == id);
        }
    }
}

pub proof fn lemma_rules_map_remove(s: Seq<RuleV>, i: int)
    requires
        unique_rule_ids(s),
        0 <= i < s.len(),
    ensures
        rules_map(s.remove(i)) == rules_map(s).remove(s[i].identifier),
    decreases s.len(),
{
    if i == s.len() - 1 {
        assert(s.remove(i) =~= s.drop_last());
        lemma_rules_map_contains(s.drop_last(), s[i].identifier);
        assert(forall|k: int|
            0 <= k < s.drop_last().len() ==> (#[trigger] s.drop_last()[k]).identifier != s[
                i
            ].identifier);
        assert(rules_map(s.drop_last()) =~= rules_map(s).remove(s[i].identifier));
    } else {
        assert(unique_rule_ids(s.drop_last()));
        lemma_rules_map_remove(s.drop_last(), i);
        assert(s.remove(i).drop_last() =~= s.drop_last().remove(i));
        assert(s.remove(i).last() == s.last());
        assert(rules_map(s.remove(i)) == rules_map(s.drop_last().remove(i)).insert(
            s.last().identifier,
            s.last(),
        ));
        assert(s[i].identifier != s.last().identifier);
        assert(rules_map(s.remove(i)) =~= rules_map(s).remove(s[i].identifier));
    }
}

pub proof fn lemma_rules_map_push(s: Seq<RuleV>, r: RuleV)
    ensures
        rules_map(s.push(r)) == rules_map(s).insert(r.identifier, r),
{
    assert(s.push(r).drop_last() =~= s);
    assert(s.push(r).last() == r);
}

/// The weight of a pattern: its byte length.
pub open spec fn pattern_weight(r: RuleV) -> int {
    encode_utf8(r.pattern).len() as int
}

/// The rule chosen for a job: among the rules supporting the job, the one
/// with the greatest pattern weight; among rules of equal greatest weight,
/// the earliest registered wins. None when no rule supports the job.
pub open spec fn best_rule(rules: Seq<RuleV>, job: Seq<char>) -> Option<RuleV>
    decreases rules.len(),
{
    if rules.len() == 0 {
        None
    } else {
        let prev = best_rule(rules.drop_last(), job);
        let last = rules.last();
        if pattern_supports(last.pattern, job) && (prev is None || pattern_weight(last)
            > pattern_weight(prev.unwrap())) {
            Some(last)
        } else {
            prev
        }
    }
}

/// The chosen rule supports the job with the greatest weight among the
/// supporting rules, and a rule is chosen exactly when some rule supports
/// the job.
pub proof fn lemma_best_rule_char(rules: Seq<RuleV>, job: Seq<char>)
    ensures
        best_rule(rules, job) is None <==> forall|k: int|
            0 <= k < rules.len() ==> !pattern_supports((#[trigger] rules[k]).pattern, job),
        best_rule(rules, job) is Some ==> {
            let r = best_rule(rules, job).unwrap();
            &&& pattern_supports(r.pattern, job)
            &&& exists|k: int| 0 <= k < rules.len() && #[trigger] rules[k] == r
            &&& forall|k: int|
                0 <= k < rules.len() && pattern_supports((#[trigger] rules[k]).pattern, job)
                    ==> pattern_weight(rules[k]) <= pattern_weight(r)
        },
    decreases rules.len(),
{
    if rules.len() > 0 {
        lemma_best_rule_char(rules.drop_last(), job);
        let last = rules.last();
        let d = rules.drop_last();
        assert(rules[rules.len() - 1] == last);
        assert forall|k: int| 0 <= k < rules.len() - 1 implies #[trigger] rules[k] == d[k] by {
            assert(d[k] == rules[k]);
        }
        if best_rule(rules, job) is None {
            assert forall|k: int| 0 <= k < rules.len() implies !pattern_supports(
                (#[trigger] rules[k]).pattern,
                job,
            ) by {
                if k < rules.len() - 1 {
                    assert(rules[k] == d[k]);
                    assert(!pattern_supports(d[k].pattern, job));
                }
            }
        }
        if forall|k: int|
            0 <= k < rules.len() ==> !pattern_supports((#[trigger] rules[k]).pattern, job) {
            assert(!pattern_supports(rules[rules.len() - 1].pattern, job));
            assert forall|k: int| 0 <= k < d.len() implies !pattern_supports(
                (#[trigger] d[k]).pattern,
                job,
            ) by {
                assert(d[k] == rules[k]);
            }
            assert(best_rule(d, job) is None);
            assert(best_rule(rules, job) is None);
        }
        if best_rule(rules, job) is Some {
            let r = best_rule(rules, job).unwrap();
            let prev = best_rule(d, job);
            if pattern_supports(last.pattern, job) && (prev is None || pattern_weight(last)
                > pattern_weight(prev.unwrap())) {
                assert(rules[rules.len() - 1] == r);
            } else {
                let pr = prev.unwrap();
                let k = choose|k: int| 0 <= k < d.len() && #[trigger] d[k] == pr;
                assert(rules[k] == pr);
            }
            assert forall|k: int|
                0 <= k < rules.len() && pattern_supports(
                    (#[trigger] rules[k]).pattern,
                    job,
                ) implies pattern_weight(rules[k]) <= pattern_weight(r) by {
                if k < rules.len() - 1 {
                    assert(rules[k] == d[k]);
                    if prev is None {
                        assert(!pattern_supports(d[k].pattern, job));
                    }
                }
            }
        }
    }
}

/// Law: a rule with an empty pattern supports every job, with weight 0, so
/// some rule is always chosen when one is registered.
pub proof fn lemma_empty_pattern_always_pairs(rules: Seq<RuleV>, job: Seq<char>, k: int)
    requires
        0 <= k < rules.len(),
        rules[k].pattern.len() == 0,
    ensures
        best_rule(rules, job) is Some,
{
    assert(encode_utf8(rules[k].pattern) =~= Seq::<u8>::empty());
    assert(encode_utf8(rules[k].pattern).is_prefix_of(encode_utf8(job)));
    assert(pattern_supports(rules[k].pattern, job));
    lemma_best_rule_char(rules, job);
}

/// The database store: all existing jobs and rules, paired with the model of
/// the write-ahead log that records every mutation.
pub struct Storage {
    pub job_storage: JobStorage,
    pub rules: Vec<Rule>,
    pub log: Ghost<Seq<EntryV>>,
}

impl Storage {
    /// The store rebuilt by this storage: its jobs and rules by identifier.
    pub open spec fn view_store(&self) -> StoreV {
        StoreV { jobs: self.job_storage.jobs_view(), rules: rules_map(rule_views(self.rules@)) }
    }

    /// The storage invariant: the in-memory indexes are consistent and the
    /// recorded log replays to exactly the in-memory state (persist-then-
    /// apply).
    pub open spec fn wf(&self) -> bool {
        &&& self.job_storage.wf()
        &&& unique_rule_ids(rule_views(self.rules@))
        &&& replay(self.log@) == self.view_store()
    }

    /// Create a new empty Storage.
    pub fn new() -> (r: Storage)
        ensures
            r.wf(),
            r.log@ == Seq::<EntryV>::empty(),
            r.view_store() == empty_store(),
    {
        let r = Storage {
            job_storage: JobStorage::new(),
            rules: Vec::new(),
            log: Ghost(Seq::empty()),
        };
        proof {
            assert(rule_views(r.rules@) =~= Seq::<RuleV>::empty());
            assert(rules_map(rule_views(r.rules@)) =~= Map::<Seq<char>, RuleV>::empty());
            assert(replay(r.log@).jobs =~= r.view_store().jobs);
            assert(replay(r.log@).rules =~= r.view_store().rules);
        }
        r
    }

    /// Initialize this storage with the entries recovered from the persisted
    /// log, in order: the last entry for each subject wins. Return all jobs
    /// left in the Triggered state: that state is transient, so each must be
    /// dispatched again — there is no way to know the outcome of its earlier
    /// execution.
    pub fn initialize(&mut self, entries: Vec<Decoded>) -> (r: Vec<Job>)
        requires
            old(self).wf(),
            old(self).log@.len() == 0,
            forall|k: int| 0 <= k < entries@.len() ==> valid_entry((#[trigger] entries@[k])@),
        ensures
            final(self).wf(),
            final(self).log@ == entry_views(entries@),
            final(self).view_store() == replay(entry_views(entries@)),
            forall|k: int|
                0 <= k < r@.len() ==> {
                    let j = (#[trigger] r@[k])@;
                    &&& j.status == Status::Triggered
                    &&& final(self).view_store().jobs.contains_key(j.identifier)
                    &&& final(self).view_store().jobs[j.identifier] == j
                },
            forall|id: Seq<char>|
                #[trigger] final(self).view_store().jobs.contains_key(id)
                    && final(self).view_store().jobs[id].status == Status::Triggered
                    ==> job_views(r@).contains(final(self).view_store().jobs[id]),
    {
        let mut i: usize = 0;
        proof {
            assert(entry_views(entries@.take(0)) =~= Seq::<EntryV>::empty());
            assert(self.log@ =~= entry_views(entries@.take(0)));
        }
        while i < entries.len()
            invariant
                self.wf(),
                0 <= i <= entries@.len(),
                forall|k: int| 0 <= k < entries@.len() ==> valid_entry((#[trigger] entries@[k])@),
                self.log@ == entry_views(entries@.take(i as int)),
            decreases entries@.len() - i,
        {
            let entry = entries[i].clone();
            proof {
                assert(entry_views(entries@)[i as int] == entries@[i as int]@);
                assert(entry_views(entries@.take(i + 1)).drop_last() =~= entry_views(
                    entries@.take(i as int),
                ));
                assert(entry_views(entries@.take(i + 1)).last() == entries@[i as int]@);
                assert(entry_views(entries@.take(i + 1)) =~= entry_views(
                    entries@.take(i as int),
                ).push(entries@[i as int]@));
            }
            match entry {
                Decoded::Job(job) => {
                    self.set_job(job);
                },
                Decoded::Rule(rule) => {
                    self.set_rule(rule);
                },
            }
            i = i + 1;
        }
        proof {
            assert(entries@.take(entries@.len() as int) =~= entries@);
        }
        // Collect the jobs left in the transient Triggered state.
        let ghost jobs = job_views(self.job_storage.jobs@);
        let mut triggered: Vec<Job> = Vec::new();
        let mut k: usize = 0;
        proof {
            assert(jobs.len() == self.job_storage.jobs@.len());
        }
        while k < self.job_storage.jobs.len()
            invariant
                self.wf(),
                jobs == job_views(self.job_storage.jobs@),
                jobs.len() == self.job_storage.jobs@.len(),
                0 <= k <= jobs.len(),
                forall|a: int|
                    0 <= a < triggered@.len() ==> {
                        let j = (#[trigger] triggered@[a])@;
                        &&& j.status == Status::Triggered
                        &&& self.view_store().jobs.contains_key(j.identifier)
                        &&& self.view_store().jobs[j.identifier] == j
                    },
                forall|a: int|
                    0 <= a < k && (#[trigger] jobs[a]).status == Status::Triggered ==> job_views(
                        triggered@,
                    ).contains(jobs[a]),
            decreases jobs.len() - k,
        {
            proof {
                assert(job_views(self.job_storage.jobs@)[k as int]
                    == self.job_storage.jobs@[k as int]@);
            }
            if matches!(self.job_storage.jobs[k].status, Status::Triggered) {
                let ghost tv0 = job_views(triggered@);
                triggered.push(self.job_storage.jobs[k].clone());
                proof {
                    lemma_jobs_map_index(jobs, k as int);
                    assert(job_views(triggered@) =~= tv0.push(jobs[k as int]));
                    assert(job_views(triggered@).contains(job_views(triggered@)[tv0.len() as int]));
                    assert forall|a: int|
                        0 <= a < k && (#[trigger] jobs[a]).status
                            == Status::Triggered implies job_views(triggered@).contains(
                        jobs[a],
                    ) by {
                        lemma_push_keeps_contains(tv0, jobs[k as int], jobs[a]);
                    }
                    assert forall|a: int| 0 <= a < triggered@.len() implies {
                        let j = (#[trigger] triggered@[a])@;
                        &&& j.status == Status::Triggered
                        &&& self.view_store().jobs.contains_key(j.identifier)
                        &&& self.view_store().jobs[j.identifier] == j
                    } by {
                        if a < tv0.len() {
                            assert(triggered@[a]@ == tv0[a]);
                        }
                    }
                }
            }
            k = k + 1;
        }
        proof {
            assert forall|id: Seq<char>|
                #[trigger] self.view_store().jobs.contains_key(id)
                    && self.view_store().jobs[id].status == Status::Triggered implies job_views(
                triggered@,
            ).contains(self.view_store().jobs[id]) by {
                lemma_jobs_map_contains(jobs, id);
                let j = choose|j: int| 0 <= j < jobs.len() && (#[trigger] jobs[j]).identifier
                    == id;
                lemma_jobs_map_index(jobs, j);
                lemma_jobs_map_key(jobs, id);
            }
        }
        triggered
    }

    /// Get the job with the given identifier, if there is one.
    pub fn get_job(&self, identifier: &str) -> (r: Option<&Job>)
        requires
            self.wf(),
        ensures
            r is Some <==> self.view_store().jobs.contains_key(identifier@),
            r is Some ==> r.unwrap()@ == self.view_store().jobs[identifier@],
    {
        self.job_storage.get(identifier)
    }

    /// Get all jobs that need to be executed at the given instant: the
    /// Planned jobs planned at or before it, earliest first.
    pub fn get_jobs_to_execute(&self, current: i64) -> (r: Vec<Job>)
        requires
            self.wf(),
        ensures
            job_views(r@) == self.job_storage.planned_view().take(
                first_after(self.job_storage.planned_view(), current),
            ),
    {
        self.job_storage.get_to_execute(current)
    }

    /// Encode the log record for a job mutation: the framed entry to append
    /// to the logfile before applying the mutation. Fails exactly when the
    /// job's identifier is longer than 65535 bytes.
    pub fn prepare_job(&self, job: &Job) -> (r: Result<Vec<u8>, WriteError>)
        ensures
            r is Ok <==> valid_job(job@),
            r is Ok ==> r.unwrap()@ == spec_frame(spec_encode_job(job@)),
    {
        let encoder = Encoder::new();
        let payload = match encoder.encode(Encodable::Job(job)) {
            Ok(p) => p,
            Err(_) => {
                return Err(WriteError::PersistenceFailure);
            },
        };
        proof {
            lemma_job_shape(job@);
        }
        let frame_encoder = FrameEncoder::new();
        match frame_encoder.encode(payload.as_slice()) {
            Ok(framed) => Ok(framed),
            Err(_) => Err(WriteError::PersistenceFailure),
        }
    }

    /// Encode the log record for a rule mutation. Fails exactly when one of
    /// the rule's strings is longer than 65535 bytes.
    pub fn prepare_rule(&self, rule: &Rule) -> (r: Result<Vec<u8>, WriteError>)
        ensures
            r is Ok <==> valid_rule(rule@),
            r is Ok ==> r.unwrap()@ == spec_frame(spec_encode_rule(rule@)),
    {
        let encoder = Encoder::new();
        let payload = match encoder.encode(Encodable::Rule(rule)) {
            Ok(p) => p,
            Err(_) => {
                return Err(WriteError::PersistenceFailure);
            },
        };
        proof {
            lemma_rule_shape(rule@);
        }
        let frame_encoder = FrameEncoder::new();
        match frame_encoder.encode(payload.as_slice()) {
            Ok(framed) => Ok(framed),
            Err(_) => Err(WriteError::PersistenceFailure),
        }
    }

    /// Set a job in this storage, after its record was persisted: append the
    /// entry to the log model and apply it in memory. If a job with the same
    /// identifier already exists, its properties are replaced.
    pub fn set_job(&mut self, job: Job)
        requires
            old(self).wf(),
            valid_job(job@),
        ensures
            final(self).wf(),
            final(self).log@ == old(self).log@.push(EntryV::Job(job@)),
            final(self).view_store() == apply_entry(old(self).view_store(), EntryV::Job(job@)),
    {
        let ghost jv = job@;
        self.job_storage.set(job);
        proof {
            self.log@ = self.log@.push(EntryV::Job(jv));
            crate::persistence::lemma_persist_then_apply(old(self).log@, EntryV::Job(jv));
            assert(rule_views(self.rules@) == rule_views(old(self).rules@));
            assert(self.view_store() == apply_entry(old(self).view_store(), EntryV::Job(jv)));
        }
    }

    /// Set a rule in this storage, after its record was persisted: append
    /// the entry to the log model and apply it in memory. If a rule with the
    /// same identifier already exists, its properties are replaced.
    pub fn set_rule(&mut self, rule: Rule)
        requires
            old(self).wf(),
            valid_rule(rule@),
        ensures
            final(self).wf(),
            final(self).log@ == old(self).log@.push(EntryV::Rule(rule@)),
            final(self).view_store() == apply_entry(old(self).view_store(), EntryV::Rule(rule@)),
    {
        let ghost rv = rule@;
        let ghost rules0 = rule_views(self.rules@);
        remove_rule_by_id(&mut self.rules, rule.identifier.as_str());
        let ghost mid = rule_views(self.rules@);
        self.rules.push(rule);
        proof {
            assert(rule_views(self.rules@) =~= mid.push(rv));
            lemma_rules_map_push(mid, rv);
            assert(rules_map(mid) == rules_map(rules0).remove(rv.identifier));
            assert(rules_map(rule_views(self.rules@)) =~= rules_map(rules0).insert(
                rv.identifier,
                rv,
            ));
            let r2 = rule_views(self.rules@);
            assert forall|a: int, b: int| 0 <= a < b < r2.len() implies (#[trigger] r2[a]).identifier
                != (#[trigger] r2[b]).identifier by {
                if b == r2.len() - 1 {
                    assert(r2[a] == mid[a]);
                    assert(mid[a].identifier != rv.identifier);
                } else {
                    assert(r2[a] == mid[a] && r2[b] == mid[b]);
                }
            }
            self.log@ = self.log@.push(EntryV::Rule(rv));
            crate::persistence::lemma_persist_then_apply(old(self).log@, EntryV::Rule(rv));
            assert(self.view_store() == apply_entry(old(self).view_store(), EntryV::Rule(rv)));
        }
    }

    /// Pair the job with the given identifier to a matching rule: the
    /// supporting rule with the longest pattern; among equally long patterns
    /// the earliest registered rule wins.
    pub fn pair(&self, job: &String) -> (r: Option<Rule>)
        requires
            self.wf(),
        ensures
            r is Some <==> best_rule(rule_views(self.rules@), job@) is Some,
            r is Some ==> r.unwrap()@ == best_rule(rule_views(self.rules@), job@).unwrap(),
    {
        let ghost rules0 = rule_views(self.rules@);
        let mut prioritized: Option<&Rule> = None;
        let mut weight: usize = 0;
        let mut i: usize = 0;
        proof {
            assert(rules0.take(0) =~= Seq::<RuleV>::empty());
        }
        while i < self.rules.len()
            invariant
                rules0 == rule_views(self.rules@),
                rules0.len() == self.rules@.len(),
                0 <= i <= rules0.len(),
                prioritized is Some ==> best_rule(rules0.take(i as int), job@) == Some(
                    prioritized.unwrap()@,
                ) && pattern_weight(prioritized.unwrap()@) == weight,
                prioritized is None ==> best_rule(rules0.take(i as int), job@) is None,
            decreases rules0.len() - i,
        {
            proof {
                assert(rule_views(self.rules@)[i as int] == self.rules@[i as int]@);
                assert(rules0.take(i + 1).drop_last() =~= rules0.take(i as int));
                assert(rules0.take(i + 1).last() == rules0[i as int]);
            }
            match self.rules[i].supports(job) {
                Some(w) => {
                    if prioritized.is_none() || w > weight {
                        prioritized = Some(&self.rules[i]);
                        weight = w;
                    }
                },
                None => {},
            }
            i = i + 1;
        }
        proof {
            assert(rules0.take(rules0.len() as int) =~= rules0);
        }
        match prioritized {
            Some(rule) => Some(rule.clone()),
            None => None,
        }
    }
}

/// Remove the rule with the given identifier from the list, if there is one;
/// the other entries keep their order.
fn remove_rule_by_id(rules: &mut Vec<Rule>, identifier: &str)
    requires
        unique_rule_ids(rule_views(old(rules)@)),
    ensures
        unique_rule_ids(rule_views(final(rules)@)),
        rules_map(rule_views(final(rules)@)) == rules_map(rule_views(old(rules)@)).remove(
            identifier@,
        ),
        forall|k: int|
            0 <= k < rule_views(final(rules)@).len() ==> (#[trigger] rule_views(
                final(rules)@,
            )[k]).identifier != identifier@,
{
    let ghost v = rule_views(rules@);
    proof {
        assert(v.len() == rules@.len());
    }
    let mut i: usize = 0;
    while i < rules.len()
        invariant
            v == rule_views(rules@),
            v == rule_views(old(rules)@),
            v.len() == rules@.len(),
            unique_rule_ids(v),
            0 <= i <= v.len(),
            forall|k: int| 0 <= k < i ==> (#[trigger] v[k]).identifier != identifier@,
        decreases v.len() - i,
    {
        if str_eq(rules[i].identifier.as_str(), identifier) {
            let ghost k = i as int;
            proof {
                assert(rule_views(rules@)[k] == rules@[k]@);
                assert(v[k].identifier == identifier@);
                lemma_rules_map_remove(v, k);
            }
            rules.remove(i);
            proof {
                assert(rule_views(rules@) =~= v.remove(k));
                v.remove_ensures(k);
                let v2 = v.remove(k);
                assert forall|a: int, b: int| 0 <= a < b < v2.len() implies (
                #[trigger] v2[a]).identifier != (#[trigger] v2[b]).identifier by {
                    let aa = if a < k {
                        a
                    } else {
                        a + 1
                    };
                    let bb = if b < k {
                        b
                    } else {
                        b + 1
                    };
                    assert(v2[a] == v[aa] && v2[b] == v[bb]);
                }
                assert forall|a: int| 0 <= a < v2.len() implies (#[trigger] v2[a]).identifier
                    != identifier@ by {
                    if a < k {
                        assert(v2[a] == v[a]);
                    } else {
                        assert(v2[a] == v[a + 1]);
                    }
                }
            }
            return ;
        }
        proof {
            assert(rule_views(rules@)[i as int] == rules@[i as int]@);
        }
        i = i + 1;
    }
    proof {
        lemma_rules_map_contains(v, identifier@);
        assert(rules_map(rule_views(rules@)) =~= rules_map(v).remove(identifier@));
    }
}

/// An element stays in a list another is pushed onto.
proof fn lemma_push_keeps_contains(s: Seq<JobV>, x: JobV, y: JobV)
    requires
        s.contains(y),
    ensures
        s.push(x).contains(y),
{
    let i = choose|i: int| 0 <= i < s.len() && s[i] == y;
    assert(s.push(x)[i] == y);
    assert(s.push(x).contains(s.push(x)[i]));
}

/// Law: after any accepted mutation, recovery from the write-ahead log alone
/// reproduces the in-memory state exactly.
pub proof fn lemma_recovery_reproduces(s: &Storage)
    requires
        s.wf(),
    ensures
        replay(s.log@) == s.view_store(),
{
}

} // verus!
