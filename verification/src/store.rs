//! An optimized in-memory storage for jobs, aiming for fast reads on specific
//! domain needs.
//!
//! This storage provides access to all jobs that must be executed at a given
//! instant. Jobs can also be retrieved directly using their identifiers.
//! Finally, jobs can be set (creation or modification) using their
//! identifiers.

use vstd::prelude::*;
use crate::job::{Job, JobV, Status};
use crate::text::str_eq;

verus! {

/// The map from identifiers to job models described by a list of jobs; a
/// later entry with the same identifier wins.
pub open spec fn jobs_map(s: Seq<JobV>) -> Map<Seq<char>, JobV>
    decreases s.len(),
{
    if s.len() == 0 {
        Map::empty()
    } else {
        jobs_map(s.drop_last()).insert(s.last().identifier, s.last())
    }
}

/// The models of a list of jobs.
pub open spec fn job_views(s: Seq<Job>) -> Seq<JobV> {
    s.map_values(|j: Job| j@)
}

/// True when no two jobs in the list share an identifier.
pub open spec fn unique_ids(s: Seq<JobV>) -> bool {
    forall|i: int, j: int| 0 <= i < j < s.len() ==> s[i].identifier != s[j].identifier
}

/// True when the list is sorted by execution instant, ascending.
pub open spec fn sorted_by_execution(s: Seq<JobV>) -> bool {
    forall|i: int, j: int| 0 <= i < j < s.len() ==> s[i].execution <= s[j].execution
}

/// The index of the first job planned strictly after the given instant; the
/// length of the list when there is none.
pub open spec fn first_after(s: Seq<JobV>, t: i64) -> int
    decreases s.len(),
{
    if s.len() == 0 {
        0
    } else if s[0].execution > t {
        0
    } else {
        1 + first_after(s.drop_first(), t)
    }
}

pub proof fn lemma_jobs_map_contains(s: Seq<JobV>, id: Seq<char>)
    ensures
        jobs_map(s).contains_key(id) <==> exists|i: int|
            0 <= i < s.len() && (#[trigger] s[i]).identifier == id,
    decreases s.len(),
{
    if s.len() > 0 {
        lemma_jobs_map_contains(s.drop_last(), id);
        if s.last().identifier == id {
            assert(s[s.len() - 1].identifier == id);
        } else if jobs_map(s).contains_key(id) {
            let i = choose|i: int|
                0 <= i < s.drop_last().len() && (#[trigger] s.drop_last()[i]).identifier == id;
            assert(s[i].identifier == id);
        } else if exists|i: int| 0 <= i < s.len() && (#[trigger] s[i]).identifier == id {
            let i = choose|i: int| 0 <= i < s.len() && (#[trigger] s[i]).identifier == id;
            assert(s.drop_last()[i].identifier == id);
        }
    }
}

pub proof fn lemma_jobs_map_index(s: Seq<JobV>, i: int)
    requires
        unique_ids(s),
        0 <= i < s.len(),
    ensures
        jobs_map(s).contains_key(s[i].identifier),
        jobs_map(s)[s[i].identifier] == s[i],
    decreases s.len(),
{
    if i < s.len() - 1 {
        assert(unique_ids(s.drop_last()));
        lemma_jobs_map_index(s.drop_last(), i);
        assert(s.drop_last()[i] == s[i]);
        assert(s.last().identifier != s[i].identifier);
    }
}

pub proof fn lemma_jobs_map_remove(s: Seq<JobV>, i: int)
    requires
        unique_ids(s),
        0 <= i < s.len(),
    ensures
        jobs_map(s.remove(i)) == jobs_map(s).remove(s[i].identifier),
    decreases s.len(),
{
    if i == s.len() - 1 {
        assert(s.remove(i) =~= s.drop_last());
        lemma_jobs_map_contains(s.drop_last(), s[i].identifier);
        assert(forall|k: int|
            0 <= k < s.drop_last().len() ==> (#[trigger] s.drop_last()[k]).identifier != s[
                i
            ].identifier);
        assert(jobs_map(s.drop_last()) =~= jobs_map(s).remove(s[i].identifier));
    } else {
        assert(unique_ids(s.drop_last()));
        lemma_jobs_map_remove(s.drop_last(), i);
        assert(s.remove(i).drop_last() =~= s.drop_last().remove(i));
        assert(s.remove(i).last() == s.last());
        assert(jobs_map(s.remove(i)) == jobs_map(s.drop_last().remove(i)).insert(
            s.last().identifier,
            s.last(),
        ));
        assert(s[i].identifier != s.last().identifier);
        assert(jobs_map(s.remove(i)) =~= jobs_map(s).remove(s[i].identifier));
    }
}

/// Each entry of the identifier map is keyed by its own identifier.
pub proof fn lemma_jobs_map_key(s: Seq<JobV>, id: Seq<char>)
    ensures
        jobs_map(s).contains_key(id) ==> jobs_map(s)[id].identifier == id,
    decreases s.len(),
{
    if s.len() > 0 {
        lemma_jobs_map_key(s.drop_last(), id);
    }
}

pub proof fn lemma_jobs_map_push(s: Seq<JobV>, j: JobV)
    ensures
        jobs_map(s.push(j)) == jobs_map(s).insert(j.identifier, j),
{
    assert(s.push(j).drop_last() =~= s);
    assert(s.push(j).last() == j);
}

pub proof fn lemma_first_after_char(s: Seq<JobV>, t: i64)
    ensures
        0 <= first_after(s, t) <= s.len(),
        forall|i: int| 0 <= i < first_after(s, t) ==> (#[trigger] s[i]).execution <= t,
        first_after(s, t) < s.len() ==> s[first_after(s, t)].execution > t,
    decreases s.len(),
{
    if s.len() > 0 && s[0].execution <= t {
        lemma_first_after_char(s.drop_first(), t);
        let fa = first_after(s, t);
        assert(fa == 1 + first_after(s.drop_first(), t));
        assert forall|i: int| 0 <= i < fa implies (#[trigger] s[i]).execution <= t by {
            if i > 0 {
                assert(s.drop_first()[i - 1] == s[i]);
            }
        }
        if fa < s.len() {
            assert(s.drop_first()[fa - 1] == s[fa]);
        }
    }
}

/// Law: against a list sorted by execution instant, the due-prefix cut uses
/// an inclusive comparison — a job planned exactly at the current instant is
/// due.
pub proof fn lemma_due_inclusive(s: Seq<JobV>, t: i64, i: int)
    requires
        sorted_by_execution(s),
        0 <= i < s.len(),
    ensures
        i < first_after(s, t) <==> s[i].execution <= t,
{
    lemma_first_after_char(s, t);
    let fa = first_after(s, t);
    if s[i].execution <= t && i >= fa {
        assert(s[fa].execution > t);
        if fa < i {
            assert(s[fa].execution <= s[i].execution);
        }
        assert(false);
    }
}

/// Law: among the jobs due at one instant, a job planned strictly earlier
/// stands strictly earlier in the due list, so its trigger — persist and
/// enqueue — precedes the other's.
pub proof fn lemma_trigger_ordering(s: Seq<JobV>, t: i64, i: int, j: int)
    requires
        sorted_by_execution(s),
        0 <= i < first_after(s, t),
        0 <= j < first_after(s, t),
        s[i].execution < s[j].execution,
    ensures
        i < j,
{
    lemma_first_after_char(s, t);
    if i >= j {
        if j < i {
            assert(s[j].execution <= s[i].execution);
        }
        assert(false);
    }
}

/// Properties of removing the entry at an index from a list with unique
/// identifiers: the other entries keep their order, values and uniqueness,
/// and the removed identifier is gone.
#[verifier::rlimit(100)]
#[verifier::spinoff_prover]
pub proof fn lemma_remove_at(v: Seq<JobV>, k: int, id: Seq<char>)
    requires
        unique_ids(v),
        0 <= k < v.len(),
        v[k].identifier == id,
    ensures
        ({
            let r = v.remove(k);
            &&& unique_ids(r)
            &&& (sorted_by_execution(v) ==> sorted_by_execution(r))
            &&& forall|i: int| 0 <= i < r.len() ==> (#[trigger] r[i]).identifier != id
            &&& forall|i: int| 0 <= i < r.len() ==> v.contains(#[trigger] r[i])
            &&& forall|j: int|
                #![trigger v[j]]
                0 <= j < v.len() && v[j].identifier != id ==> r.contains(v[j])
        }),
{
    v.remove_ensures(k);
    let r = v.remove(k);
    assert forall|i: int| 0 <= i < r.len() implies (#[trigger] r[i]).identifier != id
        && v.contains(r[i]) by {
        if i < k {
            assert(r[i] == v[i]);
            assert(v.contains(v[i]));
        } else {
            assert(r[i] == v[i + 1]);
            assert(v.contains(v[i + 1]));
        }
    }
    assert forall|a: int, b: int| 0 <= a < b < r.len() implies (#[trigger] r[a]).identifier != (
    #[trigger] r[b]).identifier && (sorted_by_execution(v) ==> r[a].execution
        <= r[b].execution) by {
        let aa = if a < k {
            a
        } else {
            a + 1
        };
        let bb = if b < k {
            b
        } else {
            b + 1
        };
        assert(r[a] == v[aa] && r[b] == v[bb]);
    }
    assert forall|j: int| #![trigger v[j]]
        0 <= j < v.len() && v[j].identifier != id implies r.contains(v[j]) by {
        if j < k {
            assert(r[j] == v[j]);
            assert(r.contains(r[j]));
        } else {
            assert(j != k);
            assert(r[j - 1] == v[j]);
            assert(r.contains(r[j - 1]));
        }
    }
}

/// Properties of inserting a fresh snapshot at the first position planned
/// strictly after it: order and values are kept, identifiers stay unique, and
/// the snapshot is listed.
#[verifier::rlimit(100)]
#[verifier::spinoff_prover]
pub proof fn lemma_insert_at_props(v: Seq<JobV>, jv: JobV)
    requires
        unique_ids(v),
        sorted_by_execution(v),
        forall|i: int| 0 <= i < v.len() ==> (#[trigger] v[i]).identifier != jv.identifier,
    ensures
        ({
            let p = first_after(v, jv.execution);
            let r = v.insert(p, jv);
            &&& unique_ids(r)
            &&& sorted_by_execution(r)
            &&& 0 <= p < r.len()
            &&& r[p] == jv
            &&& r.contains(jv)
            &&& forall|i: int|
                #![trigger r[i]]
                0 <= i < r.len() ==> r[i] == jv || v.contains(r[i])
            &&& forall|j: int| #![trigger v[j]] 0 <= j < v.len() ==> r.contains(v[j])
        }),
{
    lemma_first_after_char(v, jv.execution);
    let p = first_after(v, jv.execution);
    v.insert_ensures(p, jv);
    let r = v.insert(p, jv);
    assert(r.contains(r[p]));
    assert forall|i: int| #![trigger r[i]] 0 <= i < r.len() implies r[i] == jv || v.contains(
        r[i],
    ) by {
        if i < p {
            assert(r[i] == v[i]);
            assert(v.contains(v[i]));
        } else if i > p {
            assert(r[i] == v[i - 1]);
            assert(v.contains(v[i - 1]));
        }
    }
    assert forall|j: int| #![trigger v[j]] 0 <= j < v.len() implies r.contains(v[j]) by {
        if j < p {
            assert(r[j] == v[j]);
            assert(r.contains(r[j]));
        } else {
            assert(r[j + 1] == v[j]);
            assert(r.contains(r[j + 1]));
        }
    }
    lemma_insert_at_order(v, jv);
}

/// Inserting at the first position planned strictly after the snapshot keeps
/// the list sorted and its identifiers unique.
#[verifier::rlimit(100)]
#[verifier::spinoff_prover]
proof fn lemma_insert_at_order(v: Seq<JobV>, jv: JobV)
    requires
        unique_ids(v),
        sorted_by_execution(v),
        forall|i: int| 0 <= i < v.len() ==> (#[trigger] v[i]).identifier != jv.identifier,
    ensures
        ({
            let p = first_after(v, jv.execution);
            let r = v.insert(p, jv);
            unique_ids(r) && sorted_by_execution(r)
        }),
{
    lemma_first_after_char(v, jv.execution);
    let p = first_after(v, jv.execution);
    v.insert_ensures(p, jv);
    let r = v.insert(p, jv);
    assert(r[p] == jv);
    assert forall|a: int, b: int| 0 <= a < b < r.len() implies (#[trigger] r[a]).identifier != (
    #[trigger] r[b]).identifier && r[a].execution <= r[b].execution by {
        let aa = if a < p {
            a
        } else {
            a - 1
        };
        let bb = if b < p {
            b
        } else {
            b - 1
        };
        if a == p {
            assert(r[b] == v[bb] && p <= bb < v.len());
            assert(v[p].execution > jv.execution);
            if p < bb {
                assert(v[p].execution <= v[bb].execution);
            }
        } else if b == p {
            assert(r[a] == v[aa] && 0 <= aa < p);
            assert(v[aa].execution <= jv.execution);
        } else {
            assert(r[a] == v[aa] && r[b] == v[bb] && aa < bb);
        }
    }
}

/// True when the second list is the first with the entry carrying the given
/// identifier removed, if there was one.
pub open spec fn is_removal(v: Seq<JobV>, v2: Seq<JobV>, id: Seq<char>) -> bool {
    if exists|k: int| 0 <= k < v.len() && (#[trigger] v[k]).identifier == id {
        v2 == v.remove(choose|k: int| 0 <= k < v.len() && (#[trigger] v[k]).identifier == id)
    } else {
        v2 == v
    }
}

/// The higher-level properties of removing an identifier's entry.
#[verifier::rlimit(100)]
#[verifier::spinoff_prover]
proof fn lemma_removal_props(v: Seq<JobV>, v2: Seq<JobV>, id: Seq<char>)
    requires
        unique_ids(v),
        is_removal(v, v2, id),
    ensures
        unique_ids(v2),
        sorted_by_execution(v) ==> sorted_by_execution(v2),
        forall|i: int| 0 <= i < v2.len() ==> (#[trigger] v2[i]).identifier != id,
        forall|i: int| 0 <= i < v2.len() ==> v.contains(#[trigger] v2[i]),
        forall|j: int|
            #![trigger v[j]]
            0 <= j < v.len() && v[j].identifier != id ==> v2.contains(v[j]),
{
    if exists|k: int| 0 <= k < v.len() && (#[trigger] v[k]).identifier == id {
        let k = choose|k: int| 0 <= k < v.len() && (#[trigger] v[k]).identifier == id;
        lemma_remove_at(v, k, id);
    } else {
        assert forall|i: int| 0 <= i < v2.len() implies (#[trigger] v2[i]).identifier != id
            && v.contains(v2[i]) by {
            assert(v2[i] == v[i]);
            assert(v.contains(v[i]));
        }
        assert forall|j: int| #![trigger v[j]]
            0 <= j < v.len() && v[j].identifier != id implies v2.contains(v[j]) by {
            assert(v2[j] == v[j]);
            assert(v2.contains(v2[j]));
        }
    }
}

/// Remove the job with the given identifier from the list, if there is one;
/// the other entries keep their order.
fn remove_by_id(list: &mut Vec<Job>, identifier: &str)
    requires
        unique_ids(job_views(old(list)@)),
    ensures
        is_removal(job_views(old(list)@), job_views(final(list)@), identifier@),
{
    let ghost v = job_views(list@);
    proof {
        assert(v.len() == list@.len());
    }
    let mut i: usize = 0;
    while i < list.len()
        invariant
            v == job_views(list@),
            v == job_views(old(list)@),
            v.len() == list@.len(),
            unique_ids(v),
            0 <= i <= v.len(),
            forall|k: int| 0 <= k < i ==> (#[trigger] v[k]).identifier != identifier@,
        decreases v.len() - i,
    {
        if str_eq(list[i].identifier.as_str(), identifier) {
            let ghost k = i as int;
            proof {
                assert(job_views(list@)[k] == list@[k]@);
                assert(v[k].identifier == identifier@);
            }
            list.remove(i);
            proof {
                assert(job_views(list@) =~= v.remove(k));
                let kc = choose|k: int|
                    0 <= k < v.len() && (#[trigger] v[k]).identifier == identifier@;
                assert(kc == k);
            }
            return ;
        }
        proof {
            assert(job_views(list@)[i as int] == list@[i as int]@);
        }
        i = i + 1;
    }
    proof {
        assert(job_views(list@) == v);
    }
}

/// Insert a job in the list at the first position planned strictly after it,
/// so that a sorted list stays sorted and, among jobs planned at the same
/// instant, the earlier insertion comes first.
fn insert_time_ordered(list: &mut Vec<Job>, job: Job)
    requires
        unique_ids(job_views(old(list)@)),
        sorted_by_execution(job_views(old(list)@)),
        forall|i: int|
            0 <= i < job_views(old(list)@).len() ==> (#[trigger] job_views(old(list)@)[i]).identifier
                != job@.identifier,
    ensures
        job_views(final(list)@) == job_views(old(list)@).insert(
            first_after(job_views(old(list)@), job@.execution),
            job@,
        ),
{
    let ghost v = job_views(list@);
    let ghost jv = job@;
    proof {
        assert(v.len() == list@.len());
    }
    let mut p: usize = 0;
    while p < list.len() && list[p].execution <= job.execution
        invariant
            v == job_views(list@),
            v == job_views(old(list)@),
            v.len() == list@.len(),
            jv == job@,
            0 <= p <= v.len(),
            forall|q: int| 0 <= q < p ==> (#[trigger] v[q]).execution <= jv.execution,
        decreases v.len() - p,
    {
        proof {
            assert(job_views(list@)[p as int] == list@[p as int]@);
            assert(v[p as int].execution <= jv.execution);
        }
        p = p + 1;
    }
    proof {
        lemma_first_after_char(v, jv.execution);
        let fa = first_after(v, jv.execution);
        if (p as int) < fa {
            assert(job_views(list@)[p as int] == list@[p as int]@);
            assert(v[p as int].execution <= jv.execution);
            assert(false);
        }
        if fa < p as int {
            assert(v[fa].execution > jv.execution);
            assert(false);
        }
    }
    let ghost pp = p as int;
    list.insert(p, job);
    proof {
        assert(job_views(list@) =~= v.insert(pp, jv));
    }
}

/// Every entry of the planned list is a Planned job recorded, as listed,
/// in the identifier map.
pub open spec fn planned_sound(m: Map<Seq<char>, JobV>, pl: Seq<JobV>) -> bool {
    forall|i: int|
        0 <= i < pl.len() ==> {
            let j = #[trigger] pl[i];
            &&& j.status == Status::Planned
            &&& m.contains_key(j.identifier)
            &&& m[j.identifier] == j
        }
}

/// Every Planned job of the identifier map is in the planned list.
pub open spec fn planned_complete(m: Map<Seq<char>, JobV>, pl: Seq<JobV>) -> bool {
    forall|id: Seq<char>|
        #[trigger] m.contains_key(id) && m[id].status == Status::Planned ==> pl.contains(m[id])
}

/// An optimized storage implementation for jobs.
pub struct Storage {
    pub jobs: Vec<Job>,
    pub to_execute: Vec<Job>,
}

impl Storage {
    /// The map from identifiers to stored jobs.
    pub open spec fn jobs_view(&self) -> Map<Seq<char>, JobV> {
        jobs_map(job_views(self.jobs@))
    }

    /// The time-ordered list of Planned job snapshots.
    pub open spec fn planned_view(&self) -> Seq<JobV> {
        job_views(self.to_execute@)
    }

    /// The storage invariant: identifiers are unique, the planned list is
    /// sorted by execution instant, and it holds exactly the Planned jobs.
    pub open spec fn wf(&self) -> bool {
        &&& unique_ids(job_views(self.jobs@))
        &&& unique_ids(self.planned_view())
        &&& sorted_by_execution(self.planned_view())
        &&& planned_sound(self.jobs_view(), self.planned_view())
        &&& planned_complete(self.jobs_view(), self.planned_view())
    }

    /// Create a new empty storage.
    pub fn new() -> (r: Storage)
        ensures
            r.wf(),
            r.jobs_view() == Map::<Seq<char>, JobV>::empty(),
            r.planned_view() == Seq::<JobV>::empty(),
    {
        let r = Storage { jobs: Vec::new(), to_execute: Vec::new() };
        proof {
            assert(job_views(r.jobs@) =~= Seq::<JobV>::empty());
            assert(job_views(r.to_execute@) =~= Seq::<JobV>::empty());
            assert(r.jobs_view() =~= Map::<Seq<char>, JobV>::empty());
        }
        r
    }

    /// Retrieve the job with the given identifier, if there is one.
    pub fn get(&self, identifier: &str) -> (r: Option<&Job>)
        requires
            self.wf(),
        ensures
            r is Some <==> self.jobs_view().contains_key(identifier@),
            r is Some ==> r.unwrap()@ == self.jobs_view()[identifier@],
    {
        let mut i: usize = 0;
        while i < self.jobs.len()
            invariant
                self.wf(),
                job_views(self.jobs@).len() == self.jobs@.len(),
                0 <= i <= self.jobs@.len(),
                forall|k: int|
                    0 <= k < i ==> (#[trigger] job_views(self.jobs@)[k]).identifier != identifier@,
            decreases self.jobs@.len() - i,
        {
            if str_eq(self.jobs[i].identifier.as_str(), identifier) {
                proof {
                    assert(job_views(self.jobs@)[i as int] == self.jobs@[i as int]@);
                    lemma_jobs_map_index(job_views(self.jobs@), i as int);
                }
                return Some(&self.jobs[i]);
            }
            proof {
                assert(job_views(self.jobs@)[i as int] == self.jobs@[i as int]@);
            }
            i = i + 1;
        }
        proof {
            lemma_jobs_map_contains(job_views(self.jobs@), identifier@);
        }
        None
    }

    /// Retrieve all jobs to be executed at the given instant (inclusive).
    /// Only jobs in the Planned status are returned, earliest first.
    pub fn get_to_execute(&self, current: i64) -> (r: Vec<Job>)
        requires
            self.wf(),
        ensures
            job_views(r@) == self.planned_view().take(first_after(self.planned_view(), current)),
    {
        let ghost planned = self.planned_view();
        proof {
            assert(planned.len() == self.to_execute@.len());
        }
        let mut result: Vec<Job> = Vec::new();
        let mut i: usize = 0;
        proof {
            assert(job_views(result@) =~= planned.take(0));
        }
        while i < self.to_execute.len() && self.to_execute[i].execution <= current
            invariant
                self.wf(),
                planned == self.planned_view(),
                planned.len() == self.to_execute@.len(),
                0 <= i <= planned.len(),
                forall|k: int| 0 <= k < i ==> (#[trigger] planned[k]).execution <= current,
                result@.len() == i,
                job_views(result@) == planned.take(i as int),
            decreases planned.len() - i,
        {
            let ghost res0 = result@;
            result.push(self.to_execute[i].clone());
            proof {
                assert(job_views(self.to_execute@)[i as int] == self.to_execute@[i as int]@);
                assert(job_views(result@)[i as int] == result@[i as int]@);
                assert(result@[i as int]@ == planned[i as int]);
                assert forall|k: int|
                    0 <= k < i + 1 implies #[trigger] job_views(result@)[k] == planned.take(
                    i + 1,
                )[k] by {
                    if k < i {
                        assert(result@[k] == res0[k]);
                        assert(job_views(res0)[k] == planned.take(i as int)[k]);
                    }
                }
                assert(job_views(result@) =~= planned.take(i + 1));
            }
            i = i + 1;
        }
        proof {
            lemma_first_after_char(planned, current);
            let fa = first_after(planned, current);
            if (i as int) < fa {
                assert(planned[i as int].execution <= current);
                assert(job_views(self.to_execute@)[i as int] == self.to_execute@[i as int]@);
                assert(false);
            }
            if fa < i as int {
                assert(planned[fa].execution > current);
                assert(false);
            }
        }
        result
    }

    /// Set the given job, creating it if it doesn't exist, or replacing the
    /// entry with the same identifier. The ordered list keeps exactly the
    /// Planned jobs, sorted by execution instant.
    pub fn set(&mut self, job: Job)
        requires
            old(self).wf(),
        ensures
            final(self).wf(),
            final(self).jobs_view() == old(self).jobs_view().insert(job@.identifier, job@),
    {
        let ghost jv = job@;
        let ghost jobs0 = job_views(self.jobs@);
        remove_by_id(&mut self.jobs, job.identifier.as_str());
        let ghost mid_jobs = job_views(self.jobs@);
        self.jobs.push(job.clone());
        proof {
            assert(job_views(self.jobs@) =~= mid_jobs.push(jv));
            lemma_set_jobs(jobs0, mid_jobs, jv);
        }
        let ghost planned0 = self.planned_view();
        remove_by_id(&mut self.to_execute, job.identifier.as_str());
        let ghost planned1 = self.planned_view();
        proof {
            lemma_removal_props(planned0, planned1, jv.identifier);
        }
        if matches!(job.status, Status::Planned) {
            insert_time_ordered(&mut self.to_execute, job);
        }
        proof {
            if jv.status == Status::Planned {
                lemma_insert_at_props(planned1, jv);
            }
            lemma_set_wf(*old(self), *self, jv, planned1);
        }
    }
}

/// Removing an identifier then appending its new entry updates the map by
/// insertion, and keeps identifiers unique.
#[verifier::rlimit(100)]
#[verifier::spinoff_prover]
proof fn lemma_set_jobs(jobs0: Seq<JobV>, mid_jobs: Seq<JobV>, jv: JobV)
    requires
        unique_ids(jobs0),
        is_removal(jobs0, mid_jobs, jv.identifier),
    ensures
        unique_ids(mid_jobs.push(jv)),
        jobs_map(mid_jobs.push(jv)) == jobs_map(jobs0).insert(jv.identifier, jv),
{
    lemma_removal_props(jobs0, mid_jobs, jv.identifier);
    lemma_jobs_map_push(mid_jobs, jv);
    if exists|k: int| 0 <= k < jobs0.len() && (#[trigger] jobs0[k]).identifier == jv.identifier {
        let k = choose|k: int|
            0 <= k < jobs0.len() && (#[trigger] jobs0[k]).identifier == jv.identifier;
        lemma_jobs_map_remove(jobs0, k);
        assert(jobs_map(mid_jobs).insert(jv.identifier, jv) =~= jobs_map(jobs0).insert(
            jv.identifier,
            jv,
        ));
    }
    let r = mid_jobs.push(jv);
    assert forall|a: int, b: int| 0 <= a < b < r.len() implies (#[trigger] r[a]).identifier != (
    #[trigger] r[b]).identifier by {
        if b == r.len() - 1 {
            assert(r[a] == mid_jobs[a]);
            assert(mid_jobs[a].identifier != jv.identifier);
        } else {
            assert(r[a] == mid_jobs[a] && r[b] == mid_jobs[b]);
        }
    }
}

/// A Planned entry of the map is in the planned list.
proof fn lemma_complete_instance(m: Map<Seq<char>, JobV>, pl: Seq<JobV>, id: Seq<char>)
    requires
        planned_complete(m, pl),
        m.contains_key(id),
        m[id].status == Status::Planned,
    ensures
        pl.contains(m[id]),
{
}

/// The set operation preserves the storage invariant.
#[verifier::rlimit(100)]
#[verifier::spinoff_prover]
proof fn lemma_set_wf(prev: Storage, cur: Storage, jv: JobV, planned1: Seq<JobV>)
    requires
        prev.wf(),
        unique_ids(job_views(cur.jobs@)),
        cur.jobs_view() == prev.jobs_view().insert(jv.identifier, jv),
        is_removal(prev.planned_view(), planned1, jv.identifier),
        ({
            if jv.status == Status::Planned {
                cur.planned_view() == planned1.insert(first_after(planned1, jv.execution), jv)
            } else {
                cur.planned_view() == planned1
            }
        }),
    ensures
        cur.wf(),
{
    lemma_removal_props(prev.planned_view(), planned1, jv.identifier);
    if jv.status == Status::Planned {
        lemma_insert_at_props(planned1, jv);
    }
    lemma_set_wf_sound(prev, cur, jv, planned1);
    lemma_set_wf_complete(prev, cur, jv, planned1);
}

/// After a set, every listed entry is a Planned job matching the map.
#[verifier::rlimit(100)]
#[verifier::spinoff_prover]
proof fn lemma_set_wf_sound(prev: Storage, cur: Storage, jv: JobV, planned1: Seq<JobV>)
    requires
        prev.wf(),
        unique_ids(job_views(cur.jobs@)),
        cur.jobs_view() == prev.jobs_view().insert(jv.identifier, jv),
        is_removal(prev.planned_view(), planned1, jv.identifier),
        ({
            if jv.status == Status::Planned {
                cur.planned_view() == planned1.insert(first_after(planned1, jv.execution), jv)
            } else {
                cur.planned_view() == planned1
            }
        }),
    ensures
        planned_sound(cur.jobs_view(), cur.planned_view()),
{
    let v = prev.planned_view();
    let cv = cur.planned_view();
    let pm = prev.jobs_view();
    let cm = cur.jobs_view();
    lemma_removal_props(v, planned1, jv.identifier);
    if jv.status == Status::Planned {
        lemma_insert_at_props(planned1, jv);
    }
    assert(planned_sound(pm, v));
    assert forall|i: int| 0 <= i < cv.len() implies {
        let j = #[trigger] cv[i];
        &&& j.status == Status::Planned
        &&& cm.contains_key(j.identifier)
        &&& cm[j.identifier] == j
    } by {
        if cv[i] == jv {
        } else {
            // the entry was kept from the previous planned list
            assert(planned1.contains(cv[i]));
            let a = choose|a: int| 0 <= a < planned1.len() && planned1[a] == cv[i];
            assert(v.contains(planned1[a]));
            let j = choose|j: int| 0 <= j < v.len() && v[j] == planned1[a];
            assert(v[j].status == Status::Planned);
            assert(pm[cv[i].identifier] == cv[i]);
            assert(cv[i].identifier != jv.identifier);
        }
    }
}

/// After a set, every Planned job of the map is listed.
#[verifier::rlimit(100)]
#[verifier::spinoff_prover]
proof fn lemma_set_wf_complete(prev: Storage, cur: Storage, jv: JobV, planned1: Seq<JobV>)
    requires
        prev.wf(),
        unique_ids(job_views(cur.jobs@)),
        cur.jobs_view() == prev.jobs_view().insert(jv.identifier, jv),
        is_removal(prev.planned_view(), planned1, jv.identifier),
        ({
            if jv.status == Status::Planned {
                cur.planned_view() == planned1.insert(first_after(planned1, jv.execution), jv)
            } else {
                cur.planned_view() == planned1
            }
        }),
    ensures
        planned_complete(cur.jobs_view(), cur.planned_view()),
{
    let v = prev.planned_view();
    let cv = cur.planned_view();
    let pm = prev.jobs_view();
    let cm = cur.jobs_view();
    lemma_removal_props(v, planned1, jv.identifier);
    if jv.status == Status::Planned {
        lemma_insert_at_props(planned1, jv);
    }
    assert(planned_complete(pm, v));
    assert forall|id: Seq<char>|
        #[trigger] cm.contains_key(id) && cm[id].status == Status::Planned implies cv.contains(
        cm[id]) by {
        if id == jv.identifier {
            assert(cv.contains(jv));
        } else {
            assert(pm.contains_key(id) && pm[id].status == Status::Planned);
            lemma_complete_instance(pm, v, id);
            assert(v.contains(pm[id]));
            let x = pm[id];
            lemma_jobs_map_key(job_views(prev.jobs@), id);
            assert(x.identifier == id);
            let j = choose|j: int| 0 <= j < v.len() && v[j] == x;
            assert(v[j].identifier != jv.identifier);
            assert(planned1.contains(v[j]));
            if jv.status == Status::Planned {
                let a = choose|a: int| 0 <= a < planned1.len() && planned1[a] == v[j];
                assert(cv.contains(planned1[a]));
            }
        }
    }
}

} // verus!
