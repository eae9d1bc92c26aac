//! Jobs and their map and reduce sub jobs.

use std::collections::HashMap;
use vstd::prelude::*;
use vstd::std_specs::iter::IteratorSpec;

verus! {

broadcast use vstd::std_specs::hash::group_hash_axioms;

/// Whether a sub job is a map task or a reduce task.
#[derive(PartialEq, Eq, Structural, Clone, Copy, Debug)]
pub enum JobType {
    MapJob,
    ReduceJob,
}

/// One map or reduce task of a submitted job.
pub struct SubJob {
    /// Sub job id: the map task number (from 1) or the reduce bucket (from 1).
    pub id: u32,
    /// Id of the parent job.
    pub parent_job_id: u32,
    /// Input file of a map task (empty for a reduce task).
    pub file: String,
    /// Worker the task was handed to; 0 while unassigned.
    pub worker_id: u32,
    /// Map or reduce.
    pub type_job: JobType,
    /// Name of the application.
    pub app: String,
    /// Number of reduce buckets of the job.
    pub n_reduce: u32,
    /// Auxiliary arguments of the application.
    pub args: Vec<u8>,
    /// Whether the task has completed.
    pub done: bool,
    /// Whether the task has failed.
    pub failed: bool,
    /// Output directory of the job.
    pub output_dir: String,
}

/// The mathematical value of a [`SubJob`].
pub struct SubJobView {
    pub id: u32,
    pub parent_job_id: u32,
    pub file: Seq<char>,
    pub worker_id: u32,
    pub type_job: JobType,
    pub app: Seq<char>,
    pub n_reduce: u32,
    pub args: Seq<u8>,
    pub done: bool,
    pub failed: bool,
    pub output_dir: Seq<char>,
}

impl View for SubJob {
    type V = SubJobView;

    open spec fn view(&self) -> SubJobView {
        SubJobView {
            id: self.id,
            parent_job_id: self.parent_job_id,
            file: self.file@,
            worker_id: self.worker_id,
            type_job: self.type_job,
            app: self.app@,
            n_reduce: self.n_reduce,
            args: self.args@,
            done: self.done,
            failed: self.failed,
            output_dir: self.output_dir@,
        }
    }
}

impl SubJobView {
    /// Neither completed nor handed to a worker.
    pub open spec fn unassigned(self) -> bool {
        !self.done && self.worker_id == 0
    }

    /// The same sub job, handed to worker `w`.
    pub open spec fn assigned_to(self, w: u32) -> SubJobView {
        SubJobView { worker_id: w, ..self }
    }

    /// The same sub job, marked as completed.
    pub open spec fn completed(self) -> SubJobView {
        SubJobView { done: true, ..self }
    }

    /// The same sub job, taken back from a worker that died before it completed
    /// (a map task loses its result too, which lived on that worker).
    pub open spec fn map_taken_back(self) -> SubJobView {
        SubJobView { done: false, worker_id: 0, ..self }
    }

    /// The same sub job, taken back from its worker.
    pub open spec fn unassigned_again(self) -> SubJobView {
        SubJobView { worker_id: 0, ..self }
    }
}

/// A fresh, unassigned task.
pub open spec fn new_task(
    id: u32,
    parent: u32,
    file: Seq<char>,
    t: JobType,
    app: Seq<char>,
    n_reduce: u32,
    args: Seq<u8>,
    output_dir: Seq<char>,
) -> SubJobView {
    SubJobView {
        id,
        parent_job_id: parent,
        file,
        worker_id: 0,
        type_job: t,
        app,
        n_reduce,
        args,
        done: false,
        failed: false,
        output_dir,
    }
}

/// The job `id` as submitted: map task `i` (from 1) reads `files[i - 1]`, and
/// there is one reduce task per bucket `1..=n_reduce`; nothing is assigned or done.
pub open spec fn submitted_job(
    id: u32,
    files: Seq<Seq<char>>,
    output_dir: Seq<char>,
    app: Seq<char>,
    n_reduce: u32,
    args: Seq<u8>,
) -> JobView {
    JobView {
        job_id: id,
        map_jobs: Map::new(
            |i: u32| 1 <= i <= files.len(),
            |i: u32| new_task(i, id, files[i - 1], JobType::MapJob, app, n_reduce, args, output_dir),
        ),
        reduce_jobs: Map::new(
            |i: u32| 1 <= i <= n_reduce,
            |i: u32| new_task(i, id, Seq::empty(), JobType::ReduceJob, app, n_reduce, args, output_dir),
        ),
        done: false,
        failed: false,
        errors: Seq::empty(),
    }
}

/// A task's key: its job, its id and its kind.
pub open spec fn task_key(s: SubJobView) -> (u32, u32, JobType) {
    (s.parent_job_id, s.id, s.type_job)
}

/// Taking back one more task of a well-formed job extends the set of taken-back tasks.
pub proof fn lemma_take_back_step(job: JobView, lost: Set<(u32, u32, JobType)>, i: u32, t: JobType)
    requires
        job.wf(),
        t == JobType::MapJob ==> job.map_jobs.contains_key(i),
        t == JobType::ReduceJob ==> job.reduce_jobs.contains_key(i),
    ensures
        job.taken_back(lost).take_back_one(i, t) == job.taken_back(lost.insert((job.job_id, i, t))),
{
    let l2 = lost.insert((job.job_id, i, t));
    if !job.done {
        let a = job.taken_back(lost).take_back_one(i, t);
        let b = job.taken_back(l2);
        assert(a.map_jobs =~= b.map_jobs);
        assert(a.reduce_jobs =~= b.reduce_jobs);
    }
}

/// Taking back a task of another job leaves a well-formed job as it was.
pub proof fn lemma_take_back_other(job: JobView, lost: Set<(u32, u32, JobType)>, e: (u32, u32, JobType))
    requires
        job.wf(),
        e.0 != job.job_id,
    ensures
        job.taken_back(lost.insert(e)) == job.taken_back(lost),
{
    if !job.done {
        assert(job.taken_back(lost.insert(e)).map_jobs =~= job.taken_back(lost).map_jobs);
        assert(job.taken_back(lost.insert(e)).reduce_jobs =~= job.taken_back(lost).reduce_jobs);
    }
}

/// The view of a table of sub jobs keyed by sub job id.
pub open spec fn sub_jobs_view(m: Map<u32, SubJob>) -> Map<u32, SubJobView> {
    m.map_values(|s: SubJob| s@)
}

/// The reply that tells a worker which task to run next.
pub struct JobRequestReply {
    pub file: String,
    pub args: Vec<u8>,
    /// 0 for a map task, 1 for a reduce task.
    pub job_type: u32,
    pub app: String,
    /// For a reduce task: the workers that ran the map tasks of the job.
    pub worker_ids: Vec<u32>,
    pub parent_job_id: u32,
    pub job_id: u32,
    pub reduce_bucket: u32,
    /// 1 when a task is handed out, 0 when there is none.
    pub valid: u32,
    pub n_reduce: u32,
    pub output_dir: String,
}

/// The mathematical value of a [`JobRequestReply`].
pub struct ReplyView {
    pub file: Seq<char>,
    pub args: Seq<u8>,
    pub job_type: u32,
    pub app: Seq<char>,
    pub worker_ids: Seq<u32>,
    pub parent_job_id: u32,
    pub job_id: u32,
    pub reduce_bucket: u32,
    pub valid: u32,
    pub n_reduce: u32,
    pub output_dir: Seq<char>,
}

impl View for JobRequestReply {
    type V = ReplyView;

    open spec fn view(&self) -> ReplyView {
        ReplyView {
            file: self.file@,
            args: self.args@,
            job_type: self.job_type,
            app: self.app@,
            worker_ids: self.worker_ids@,
            parent_job_id: self.parent_job_id,
            job_id: self.job_id,
            reduce_bucket: self.reduce_bucket,
            valid: self.valid,
            n_reduce: self.n_reduce,
            output_dir: self.output_dir@,
        }
    }
}

/// The reply when there is no task to hand out.
pub open spec fn idle_reply() -> ReplyView {
    ReplyView {
        file: Seq::empty(),
        args: Seq::empty(),
        job_type: 0,
        app: Seq::empty(),
        worker_ids: Seq::empty(),
        parent_job_id: 0,
        job_id: 0,
        reduce_bucket: 0,
        valid: 0,
        n_reduce: 0,
        output_dir: Seq::empty(),
    }
}

/// The reply that hands out map task `s`.
pub open spec fn map_reply(s: SubJobView) -> ReplyView {
    ReplyView {
        file: s.file,
        args: s.args,
        job_type: 0,
        app: s.app,
        worker_ids: Seq::empty(),
        parent_job_id: s.parent_job_id,
        job_id: s.id,
        reduce_bucket: 0,
        valid: 1,
        n_reduce: s.n_reduce,
        output_dir: s.output_dir,
    }
}

/// The reply that hands out reduce task `s`, whose input lies on workers `ws`.
pub open spec fn reduce_reply(s: SubJobView, ws: Seq<u32>) -> ReplyView {
    ReplyView {
        file: Seq::empty(),
        args: s.args,
        job_type: 1,
        app: s.app,
        worker_ids: ws,
        parent_job_id: s.parent_job_id,
        job_id: s.id,
        reduce_bucket: s.id,
        valid: 1,
        n_reduce: s.n_reduce,
        output_dir: s.output_dir,
    }
}

/// `ws` lists the worker of every map task in `maps`, once per task, in some order.
pub open spec fn lists_map_workers(ws: Seq<u32>, maps: Map<u32, SubJobView>) -> bool {
    exists|ks: Seq<u32>|
        #![trigger ks.to_set()]
        {
            &&& ks.no_duplicates()
            &&& ks.to_set() == maps.dom()
            &&& ws == ks.map_values(|k: u32| maps[k].worker_id)
        }
}

/// Copies a byte string.
pub fn clone_bytes(v: &Vec<u8>) -> (r: Vec<u8>)
    ensures
        r@ == v@,
{
    let r = v.clone();
    assert(r@ =~= v@);
    r
}

impl Clone for SubJob {
    fn clone(&self) -> (r: Self)
        ensures
            r@ == self@,
    {
        SubJob {
            id: self.id,
            parent_job_id: self.parent_job_id,
            file: self.file.clone(),
            worker_id: self.worker_id,
            type_job: self.type_job,
            app: self.app.clone(),
            n_reduce: self.n_reduce,
            args: clone_bytes(&self.args),
            done: self.done,
            failed: self.failed,
            output_dir: self.output_dir.clone(),
        }
    }
}

/// A submitted job: its map tasks and reduce tasks, keyed by sub job id.
pub struct Job {
    pub job_id: u32,
    pub map_jobs: HashMap<u32, SubJob>,
    pub reduce_jobs: HashMap<u32, SubJob>,
    pub done: bool,
    pub failed: bool,
    /// Error messages reported by workers, oldest first.
    pub error_arr: Vec<String>,
}

/// The mathematical value of a [`Job`].
pub struct JobView {
    pub job_id: u32,
    pub map_jobs: Map<u32, SubJobView>,
    pub reduce_jobs: Map<u32, SubJobView>,
    pub done: bool,
    pub failed: bool,
    pub errors: Seq<Seq<char>>,
}

impl View for Job {
    type V = JobView;

    open spec fn view(&self) -> JobView {
        JobView {
            job_id: self.job_id,
            map_jobs: sub_jobs_view(self.map_jobs@),
            reduce_jobs: sub_jobs_view(self.reduce_jobs@),
            done: self.done,
            failed: self.failed,
            errors: self.error_arr@.map_values(|e: String| e@),
        }
    }
}

impl JobView {
    /// Every map task has completed.
    pub open spec fn all_map_done(self) -> bool {
        forall|i: u32| #[trigger] self.map_jobs.contains_key(i) ==> self.map_jobs[i].done
    }

    /// Every reduce task has completed.
    pub open spec fn all_reduce_done(self) -> bool {
        forall|i: u32| #[trigger] self.reduce_jobs.contains_key(i) ==> self.reduce_jobs[i].done
    }

    /// Some map task is neither completed nor handed out.
    pub open spec fn has_unassigned_map(self) -> bool {
        exists|i: u32| #[trigger] self.map_jobs.contains_key(i) && self.map_jobs[i].unassigned()
    }

    /// Some reduce task is neither completed nor handed out.
    pub open spec fn has_unassigned_reduce(self) -> bool {
        exists|i: u32| #[trigger] self.reduce_jobs.contains_key(i) && self.reduce_jobs[i].unassigned()
    }

    /// Each task is stored under its own id, is part of this job and has the kind
    /// of the table that holds it; a job marked done has all its tasks completed.
    pub open spec fn wf(self) -> bool {
        &&& self.done ==> self.all_map_done() && self.all_reduce_done()
        &&& forall|i: u32| #[trigger] self.map_jobs.contains_key(i) ==> {
            &&& self.map_jobs[i].id == i
            &&& self.map_jobs[i].parent_job_id == self.job_id
            &&& self.map_jobs[i].type_job == JobType::MapJob
        }
        &&& forall|i: u32| #[trigger] self.reduce_jobs.contains_key(i) ==> {
            &&& self.reduce_jobs[i].id == i
            &&& self.reduce_jobs[i].parent_job_id == self.job_id
            &&& self.reduce_jobs[i].type_job == JobType::ReduceJob
        }
    }

    /// The same job with map task `i`, if there is one, marked as completed.
    pub open spec fn map_marked_done(self, i: u32) -> JobView {
        if self.map_jobs.contains_key(i) {
            self.with_sub_job(JobType::MapJob, i, self.map_jobs[i].completed())
        } else {
            self
        }
    }

    /// The same job with reduce task `i`, if there is one, marked as completed.
    pub open spec fn reduce_marked_done(self, i: u32) -> JobView {
        if self.reduce_jobs.contains_key(i) {
            self.with_sub_job(JobType::ReduceJob, i, self.reduce_jobs[i].completed())
        } else {
            self
        }
    }

    /// The same job with its completion flag set from its tasks.
    pub open spec fn done_recomputed(self) -> JobView {
        JobView { done: self.all_map_done() && self.all_reduce_done(), ..self }
    }

    /// The same job marked as failed, with error `e` appended.
    pub open spec fn failed_with(self, e: Seq<char>) -> JobView {
        JobView { failed: true, errors: self.errors.push(e), ..self }
    }

    /// Some task can be handed out: the job has not failed, and either a map
    /// task is still pending, or every map task has completed and a reduce
    /// task is still pending.
    pub open spec fn has_work(self) -> bool {
        &&& !self.failed
        &&& if !self.all_map_done() {
            self.has_unassigned_map()
        } else {
            self.has_unassigned_reduce()
        }
    }

    /// The same job after task `i` of table `t` is taken back from a dead
    /// worker: nothing changes once the job is done; a map task becomes pending
    /// again (its output was on that worker); a reduce task that has not
    /// completed is unassigned.
    pub open spec fn take_back_one(self, i: u32, t: JobType) -> JobView {
        if self.done {
            self
        } else if t == JobType::MapJob {
            self.with_sub_job(t, i, self.map_jobs[i].map_taken_back())
        } else if self.reduce_jobs[i].done {
            self
        } else {
            self.with_sub_job(t, i, self.reduce_jobs[i].unassigned_again())
        }
    }

    /// The same job after all tasks whose keys are in `lost` are taken back.
    pub open spec fn taken_back(self, lost: Set<(u32, u32, JobType)>) -> JobView {
        if self.done {
            self
        } else {
            JobView {
                map_jobs: self.map_jobs.map_values(
                    |s: SubJobView|
                        if lost.contains(task_key(s)) {
                            s.map_taken_back()
                        } else {
                            s
                        },
                ),
                reduce_jobs: self.reduce_jobs.map_values(
                    |s: SubJobView|
                        if lost.contains(task_key(s)) && !s.done {
                            s.unassigned_again()
                        } else {
                            s
                        },
                ),
                ..self
            }
        }
    }

    /// The same job with task `i` of table `t` replaced by `s`.
    pub open spec fn with_sub_job(self, t: JobType, i: u32, s: SubJobView) -> JobView {
        if t == JobType::MapJob {
            JobView { map_jobs: self.map_jobs.insert(i, s), ..self }
        } else {
            JobView { reduce_jobs: self.reduce_jobs.insert(i, s), ..self }
        }
    }
}

/// Whether every sub job of `m` has completed.
fn all_sub_jobs_done(m: &HashMap<u32, SubJob>) -> (r: bool)
    ensures
        r == (forall|i: u32| #[trigger] sub_jobs_view(m@).contains_key(i) ==> sub_jobs_view(m@)[i].done),
{
    for (k, v) in it: m.iter()
        invariant
            it.seq() == vstd::std_specs::hash::spec_hash_map_iter(m).remaining(),
            forall|j: int| 0 <= j < it.index() ==> (#[trigger] it.seq()[j]).1.done,
    {
        if !v.done {
            assert(m@.contains_key(*k) && m@[*k] == *v);
            assert(sub_jobs_view(m@).contains_key(*k));
            return false;
        }
    }
    assert forall|i: u32| #[trigger] sub_jobs_view(m@).contains_key(i) implies sub_jobs_view(m@)[i].done by {
        let s = vstd::std_specs::hash::spec_hash_map_iter(m).remaining();
        assert(s.contains((&i, &m@[i])));
        let j = choose|j: int| 0 <= j < s.len() && s[j] == (&i, &m@[i]);
        assert(s[j].1.done);
    }
    true
}

/// Some sub job of `m` that is neither completed nor handed out, if there is one.
fn find_unassigned(m: &HashMap<u32, SubJob>) -> (r: Option<u32>)
    ensures
        r matches Some(k) ==> m@.contains_key(k) && m@[k]@.unassigned() && sub_jobs_view(m@).contains_key(k)
            && sub_jobs_view(m@)[k].unassigned(),
        r is None ==> forall|i: u32|
            #[trigger] sub_jobs_view(m@).contains_key(i) ==> !sub_jobs_view(m@)[i].unassigned(),
{
    for (k, v) in it: m.iter()
        invariant
            it.seq() == vstd::std_specs::hash::spec_hash_map_iter(m).remaining(),
            forall|j: int| 0 <= j < it.index() ==> !(#[trigger] it.seq()[j]).1@.unassigned(),
    {
        if !v.done && v.worker_id == 0 {
            assert(m@.contains_key(*k) && m@[*k] == *v);
            return Some(*k);
        }
    }
    assert forall|i: u32| #[trigger] sub_jobs_view(m@).contains_key(i) implies !sub_jobs_view(
        m@,
    )[i].unassigned() by {
        let s = vstd::std_specs::hash::spec_hash_map_iter(m).remaining();
        assert(s.contains((&i, &m@[i])));
        let j = choose|j: int| 0 <= j < s.len() && s[j] == (&i, &m@[i]);
        assert(!s[j].1@.unassigned());
    }
    None
}

/// The workers of the sub jobs of `m`, once per sub job, in the order in which
/// the table is walked.
fn sub_job_workers(m: &HashMap<u32, SubJob>) -> (ws: Vec<u32>)
    ensures
        lists_map_workers(ws@, sub_jobs_view(m@)),
{
    let mut ws: Vec<u32> = Vec::new();
    for (k, v) in it: m.iter()
        invariant
            it.seq() == vstd::std_specs::hash::spec_hash_map_iter(m).remaining(),
            it.seq().no_duplicates(),
            ws@.len() == it.index(),
            forall|j: int| 0 <= j < it.index() ==> ws@[j] == (#[trigger] it.seq()[j]).1.worker_id,
    {
        ws.push(v.worker_id);
    }
    proof {
        let s = vstd::std_specs::hash::spec_hash_map_iter(m).remaining();
        let view = sub_jobs_view(m@);
        let ks = Seq::new(s.len(), |j: int| *s[j].0);
        assert forall|a: int, b: int| 0 <= a < ks.len() && 0 <= b < ks.len() && a != b implies ks[a]
            != ks[b] by {
            assert(m@.contains_key(*s[a].0) && m@[*s[a].0] == *s[a].1);
            assert(m@.contains_key(*s[b].0) && m@[*s[b].0] == *s[b].1);
            if ks[a] == ks[b] {
                assert(s[a] == s[b]);
            }
        }
        assert(ks.no_duplicates());
        assert forall|k: u32| ks.to_set().contains(k) <==> view.dom().contains(k) by {
            if view.dom().contains(k) {
                assert(s.contains((&k, &m@[k])));
                let j = choose|j: int| 0 <= j < s.len() && s[j] == (&k, &m@[k]);
                assert(ks[j] == k);
            }
            if ks.to_set().contains(k) {
                let j = choose|j: int| 0 <= j < ks.len() && ks[j] == k;
                assert(m@.contains_key(*s[j].0));
            }
        }
        assert(ks.to_set() =~= view.dom());
        assert forall|j: int| 0 <= j < ks.len() implies ws@[j] == view[ks[j]].worker_id by {
            assert(m@.contains_key(*s[j].0) && m@[*s[j].0] == *s[j].1);
        }
        assert(ws@ =~= ks.map_values(|k: u32| view[k].worker_id));
    }
    ws
}

/// Storing a sub job in a table stores its view in the table's view.
proof fn lemma_sub_jobs_view_insert(m: Map<u32, SubJob>, i: u32, s: SubJob)
    ensures
        sub_jobs_view(m.insert(i, s)) == sub_jobs_view(m).insert(i, s@),
{
    assert(sub_jobs_view(m.insert(i, s)) =~= sub_jobs_view(m).insert(i, s@));
}

impl Job {
    /// A job with the given id and no tasks.
    pub fn new(j_id: u32) -> (r: Job)
        ensures
            r@ == (JobView {
                job_id: j_id,
                map_jobs: Map::empty(),
                reduce_jobs: Map::empty(),
                done: false,
                failed: false,
                errors: Seq::empty(),
            }),
    {
        let r = Job {
            job_id: j_id,
            map_jobs: HashMap::new(),
            reduce_jobs: HashMap::new(),
            done: false,
            failed: false,
            error_arr: Vec::new(),
        };
        assert(r@.map_jobs =~= Map::empty());
        assert(r@.reduce_jobs =~= Map::empty());
        assert(r@.errors =~= Seq::empty());
        r
    }

    /// Stores `j` under its id in the map table when `t` is `MapJob`, in the
    /// reduce table otherwise, replacing what was stored under that id.
    pub fn add_job(&mut self, j: SubJob, t: JobType)
        ensures
            final(self)@ == old(self)@.with_sub_job(t, j.id, j@),
    {
        let id = j.id;
        if t == JobType::MapJob {
            self.map_jobs.insert(id, j);
            proof { lemma_sub_jobs_view_insert(old(self).map_jobs@, id, j); }
        } else {
            self.reduce_jobs.insert(id, j);
            proof { lemma_sub_jobs_view_insert(old(self).reduce_jobs@, id, j); }
        }
    }

    /// Whether every map task has completed.
    pub fn all_map_done(&self) -> (r: bool)
        ensures
            r == self@.all_map_done(),
    {
        all_sub_jobs_done(&self.map_jobs)
    }

    /// Whether every reduce task has completed.
    pub fn all_reduce_done(&self) -> (r: bool)
        ensures
            r == self@.all_reduce_done(),
    {
        all_sub_jobs_done(&self.reduce_jobs)
    }

    /// Marks map task `sub_job_id` as completed; no effect when there is none.
    pub fn map_job_done(&mut self, sub_job_id: u32)
        ensures
            final(self)@ == old(self)@.map_marked_done(sub_job_id),
    {
        match self.map_jobs.remove(&sub_job_id) {
            Some(mut sj) => {
                sj.done = true;
                self.map_jobs.insert(sub_job_id, sj);
                proof {
                    lemma_sub_jobs_view_insert(old(self).map_jobs@, sub_job_id, sj);
                    assert(old(self).map_jobs@.remove(sub_job_id).insert(sub_job_id, sj)
                        =~= old(self).map_jobs@.insert(sub_job_id, sj));
                }
            },
            None => {
                assert(self.map_jobs@ =~= old(self).map_jobs@);
            },
        }
    }

    /// Marks reduce task `sub_job_id` as completed; no effect when there is none.
    pub fn reduce_job_done(&mut self, sub_job_id: u32)
        ensures
            final(self)@ == old(self)@.reduce_marked_done(sub_job_id),
    {
        match self.reduce_jobs.remove(&sub_job_id) {
            Some(mut sj) => {
                sj.done = true;
                self.reduce_jobs.insert(sub_job_id, sj);
                proof {
                    lemma_sub_jobs_view_insert(old(self).reduce_jobs@, sub_job_id, sj);
                    assert(old(self).reduce_jobs@.remove(sub_job_id).insert(sub_job_id, sj)
                        =~= old(self).reduce_jobs@.insert(sub_job_id, sj));
                }
            },
            None => {
                assert(self.reduce_jobs@ =~= old(self).reduce_jobs@);
            },
        }
    }

    /// Records whether every task has completed, and returns it.
    pub fn all_done(&mut self) -> (r: bool)
        ensures
            r == (old(self)@.all_map_done() && old(self)@.all_reduce_done()),
            final(self)@ == old(self)@.done_recomputed(),
    {
        self.done = self.all_map_done() && self.all_reduce_done();
        self.done
    }

    /// Sets the completion flag.
    pub fn set_done(&mut self, s: bool)
        ensures
            final(self)@ == (JobView { done: s, ..old(self)@ }),
    {
        self.done = s;
    }

    /// Sets the failure flag.
    pub fn set_failed(&mut self, s: bool)
        ensures
            final(self)@ == (JobView { failed: s, ..old(self)@ }),
    {
        self.failed = s;
    }

    /// Whether some task can be handed out.
    pub fn has_work(&self) -> (r: bool)
        ensures
            r == self@.has_work(),
    {
        if self.failed {
            return false;
        }
        let found = if !self.all_map_done() {
            find_unassigned(&self.map_jobs)
        } else {
            find_unassigned(&self.reduce_jobs)
        };
        match found {
            Some(k) => {
                assert(self@.map_jobs.contains_key(k) || self@.reduce_jobs.contains_key(k));
                true
            },
            None => false,
        }
    }

    /// Takes task `sub_job_id` of table `job_type` back from a dead worker,
    /// unless the job is done.
    pub fn take_back(&mut self, sub_job_id: u32, job_type: JobType)
        requires
            job_type == JobType::MapJob ==> old(self)@.map_jobs.contains_key(sub_job_id),
            job_type == JobType::ReduceJob ==> old(self)@.reduce_jobs.contains_key(sub_job_id),
        ensures
            final(self)@ == old(self)@.take_back_one(sub_job_id, job_type),
    {
        if self.done {
            return;
        }
        if job_type == JobType::MapJob {
            let mut sj = self.map_jobs.remove(&sub_job_id).unwrap();
            sj.done = false;
            sj.worker_id = 0;
            proof {
                lemma_sub_jobs_view_insert(old(self).map_jobs@, sub_job_id, sj);
                assert(old(self).map_jobs@.remove(sub_job_id).insert(sub_job_id, sj)
                    =~= old(self).map_jobs@.insert(sub_job_id, sj));
            }
            self.map_jobs.insert(sub_job_id, sj);
        } else {
            let mut sj = self.reduce_jobs.remove(&sub_job_id).unwrap();
            if !sj.done {
                sj.worker_id = 0;
            }
            proof {
                lemma_sub_jobs_view_insert(old(self).reduce_jobs@, sub_job_id, sj);
                assert(old(self).reduce_jobs@.remove(sub_job_id).insert(sub_job_id, sj)
                    =~= old(self).reduce_jobs@.insert(sub_job_id, sj));
                if old(self)@.reduce_jobs[sub_job_id].done {
                    assert(old(self).reduce_jobs@.insert(sub_job_id, sj) =~= old(self).reduce_jobs@);
                    assert(sub_jobs_view(old(self).reduce_jobs@).insert(sub_job_id, sj@)
                        =~= sub_jobs_view(old(self).reduce_jobs@));
                }
            }
            self.reduce_jobs.insert(sub_job_id, sj);
        }
    }

    /// Takes reduce task `sub_job_id` back from its worker.
    pub fn unassign_reduce(&mut self, sub_job_id: u32)
        requires
            old(self)@.reduce_jobs.contains_key(sub_job_id),
        ensures
            final(self)@ == old(self)@.with_sub_job(
                JobType::ReduceJob,
                sub_job_id,
                old(self)@.reduce_jobs[sub_job_id].unassigned_again(),
            ),
    {
        let mut sj = self.reduce_jobs.remove(&sub_job_id).unwrap();
        sj.worker_id = 0;
        proof {
            lemma_sub_jobs_view_insert(old(self).reduce_jobs@, sub_job_id, sj);
            assert(old(self).reduce_jobs@.remove(sub_job_id).insert(sub_job_id, sj)
                =~= old(self).reduce_jobs@.insert(sub_job_id, sj));
        }
        self.reduce_jobs.insert(sub_job_id, sj);
    }

    /// Hands some map task that is neither completed nor handed out to
    /// `worker_id`, and returns the reply that describes it, the job id and the
    /// updated task; `None`, with nothing changed, when there is no such task.
    pub fn assign_and_ret_map_job(&mut self, worker_id: u32) -> (r: Option<(JobRequestReply, u32, SubJob)>)
        requires
            old(self)@.wf(),
        ensures
            final(self)@.wf(),
            r is None <==> !old(self)@.has_unassigned_map(),
            r is None ==> final(self)@ == old(self)@,
            r matches Some((rep, p, sj)) ==> {
                &&& old(self)@.map_jobs.contains_key(sj.id)
                &&& old(self)@.map_jobs[sj.id].unassigned()
                &&& sj@ == old(self)@.map_jobs[sj.id].assigned_to(worker_id)
                &&& final(self)@ == old(self)@.with_sub_job(JobType::MapJob, sj.id, sj@)
                &&& p == sj.parent_job_id
                &&& rep@ == map_reply(old(self)@.map_jobs[sj.id])
            },
    {
        match find_unassigned(&self.map_jobs) {
            None => None,
            Some(k) => {
                let mut sj = self.map_jobs.remove(&k).unwrap();
                let rep = JobRequestReply {
                    file: sj.file.clone(),
                    args: clone_bytes(&sj.args),
                    job_type: 0,
                    app: sj.app.clone(),
                    worker_ids: Vec::new(),
                    parent_job_id: sj.parent_job_id,
                    job_id: sj.id,
                    reduce_bucket: 0,
                    valid: 1,
                    n_reduce: sj.n_reduce,
                    output_dir: sj.output_dir.clone(),
                };
                sj.worker_id = worker_id;
                let assigned = sj.clone();
                let parent = sj.parent_job_id;
                self.map_jobs.insert(k, sj);
                proof {
                    lemma_sub_jobs_view_insert(old(self).map_jobs@, k, sj);
                    assert(old(self).map_jobs@.remove(k).insert(k, sj) =~= old(self).map_jobs@.insert(
                        k,
                        sj,
                    ));
                    assert(rep@ =~= map_reply(old(self)@.map_jobs[k]));
                }
                Some((rep, parent, assigned))
            },
        }
    }

    /// Once every map task has completed: hands some reduce task that is neither
    /// completed nor handed out to `worker_id`, and returns the reply that
    /// describes it (with the workers that hold the map output), the job id and
    /// the updated task; `None`, with nothing changed, when there is no such task.
    pub fn assign_and_ret_reduce_job(&mut self, worker_id: u32) -> (r: Option<
        (JobRequestReply, u32, SubJob),
    >)
        requires
            old(self)@.wf(),
            old(self)@.all_map_done(),
        ensures
            final(self)@.wf(),
            r is None <==> !old(self)@.has_unassigned_reduce(),
            r is None ==> final(self)@ == old(self)@,
            r matches Some((rep, p, sj)) ==> {
                &&& old(self)@.reduce_jobs.contains_key(sj.id)
                &&& old(self)@.reduce_jobs[sj.id].unassigned()
                &&& sj@ == old(self)@.reduce_jobs[sj.id].assigned_to(worker_id)
                &&& final(self)@ == old(self)@.with_sub_job(JobType::ReduceJob, sj.id, sj@)
                &&& p == sj.parent_job_id
                &&& rep@ == reduce_reply(old(self)@.reduce_jobs[sj.id], rep.worker_ids@)
                &&& lists_map_workers(rep.worker_ids@, old(self)@.map_jobs)
            },
    {
        let workers_on_job = sub_job_workers(&self.map_jobs);
        match find_unassigned(&self.reduce_jobs) {
            None => None,
            Some(k) => {
                let mut sj = self.reduce_jobs.remove(&k).unwrap();
                let rep = JobRequestReply {
                    file: String::new(),
                    args: clone_bytes(&sj.args),
                    job_type: 1,
                    app: sj.app.clone(),
                    worker_ids: workers_on_job,
                    parent_job_id: sj.parent_job_id,
                    job_id: sj.id,
                    reduce_bucket: sj.id,
                    valid: 1,
                    n_reduce: sj.n_reduce,
                    output_dir: sj.output_dir.clone(),
                };
                sj.worker_id = worker_id;
                let assigned = sj.clone();
                let parent = sj.parent_job_id;
                self.reduce_jobs.insert(k, sj);
                proof {
                    lemma_sub_jobs_view_insert(old(self).reduce_jobs@, k, sj);
                    assert(old(self).reduce_jobs@.remove(k).insert(k, sj)
                        =~= old(self).reduce_jobs@.insert(k, sj));
                    assert(rep@ =~= reduce_reply(old(self)@.reduce_jobs[k], rep.worker_ids@));
                }
                Some((rep, parent, assigned))
            },
        }
    }
}

} // verus!
