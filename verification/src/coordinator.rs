//! The coordinator: the table of submitted jobs and the registry of workers.

use std::collections::HashMap;
use std::time::{Duration, SystemTime, SystemTimeError, UNIX_EPOCH};
use vstd::prelude::*;
use vstd::std_specs::iter::IteratorSpec;

use crate::job::{
    clone_bytes, idle_reply, lemma_take_back_other, lemma_take_back_step, lists_map_workers, map_reply,
    new_task, reduce_reply, submitted_job, task_key, Job, JobRequestReply, JobType, JobView, ReplyView,
    SubJob, SubJobView,
};
use crate::TASK_TIMEOUT_SECS;

verus! {

broadcast use vstd::std_specs::hash::group_hash_axioms;

#[verifier::external_type_specification]
#[verifier::external_body]
pub struct ExSystemTime(SystemTime);

#[verifier::external_type_specification]
#[verifier::external_body]
pub struct ExSystemTimeError(SystemTimeError);

/// Calls `SystemTime::now`. Nothing is claimed of the time it reads.
#[verifier::external_body]
fn system_now() -> (t: SystemTime) {
    SystemTime::now()
}

/// Calls `t.duration_since(UNIX_EPOCH)`: the time from the Unix epoch to `t`, or
/// an error when `t` lies before it. Nothing is claimed of the result.
#[verifier::external_body]
fn since_unix_epoch(t: &SystemTime) -> (r: Result<Duration, SystemTimeError>) {
    t.duration_since(UNIX_EPOCH)
}

/// Calls `Duration::as_millis`: the whole milliseconds of `d`. `Duration` is
/// opaque here, so nothing is claimed of the result.
#[verifier::external_body]
fn whole_millis(d: &Duration) -> (r: u128) {
    d.as_millis()
}

/// Milliseconds since the Unix epoch on the system clock (0 when the clock
/// reads a time before the epoch).
pub fn get_time() -> (t: u128) {
    let now = system_now();
    match since_unix_epoch(&now) {
        Ok(d) => whole_millis(&d),
        Err(_) => 0,
    }
}

/// The heartbeat timeout in milliseconds.
pub open spec fn timeout_millis() -> int {
    TASK_TIMEOUT_SECS * 1000
}

/// A worker whose last heartbeat came at `hb_t` is dead at time `now` (both in
/// milliseconds) once the timeout has passed since.
pub open spec fn dead_at(hb_t: u128, now: u128) -> bool {
    now - hb_t >= timeout_millis()
}

/// What the coordinator knows of a worker.
pub struct WC {
    pub worker_id: u32,
    /// Time of the last heartbeat, in milliseconds since the Unix epoch.
    pub hb_t: u128,
    /// The tasks handed to this worker, oldest first.
    pub jobs_done: Vec<SubJob>,
}

/// The mathematical value of a [`WC`].
pub struct WCView {
    pub worker_id: u32,
    pub hb_t: u128,
    pub jobs_done: Seq<SubJobView>,
}

impl View for WC {
    type V = WCView;

    open spec fn view(&self) -> WCView {
        WCView {
            worker_id: self.worker_id,
            hb_t: self.hb_t,
            jobs_done: self.jobs_done@.map_values(|s: SubJob| s@),
        }
    }
}

impl WC {
    /// Records a heartbeat at time `v`.
    pub fn update(&mut self, v: u128)
        ensures
            final(self)@ == (WCView { hb_t: v, ..old(self)@ }),
    {
        self.hb_t = v;
    }
}

/// Records a heartbeat of `w` at the current time.
pub fn update_time(w: &mut WC)
    ensures
        final(w)@.worker_id == old(w)@.worker_id,
        final(w)@.jobs_done == old(w)@.jobs_done,
{
    w.update(get_time());
}

/// Whether `worker` is dead at time `now`.
pub fn worker_dead_at(worker: &WC, now: u128) -> (r: bool)
    ensures
        r == dead_at(worker.hb_t, now),
{
    now >= worker.hb_t && now - worker.hb_t >= (TASK_TIMEOUT_SECS as u128) * 1000
}

/// Whether `worker` is dead at the current time.
pub fn dead_worker(worker: &WC) -> (r: bool)
    ensures
        exists|now: u128| #[trigger] dead_at(worker.hb_t, now) == r,
{
    let now = get_time();
    let r = worker_dead_at(worker, now);
    assert(dead_at(worker.hb_t, now) == r);
    r
}

/// Why the coordinator refuses a request.
#[derive(PartialEq, Eq, Structural, Clone, Copy, Debug)]
pub enum CoordinatorError {
    /// No application of the requested name exists.
    AppNotFound,
    /// No job of the requested id exists.
    JobNotFound,
}

/// The status of a job.
pub struct PollJobReply {
    pub done: bool,
    pub failed: bool,
    pub errors: Vec<String>,
}

/// The mathematical value of a [`PollJobReply`].
pub struct PollView {
    pub done: bool,
    pub failed: bool,
    pub errors: Seq<Seq<char>>,
}

impl View for PollJobReply {
    type V = PollView;

    open spec fn view(&self) -> PollView {
        PollView { done: self.done, failed: self.failed, errors: self.errors@.map_values(|e: String| e@) }
    }
}

/// The state of the coordinator.
pub struct Coordinator {
    /// The last worker id handed out.
    curr_id: u32,
    /// The live workers, keyed by worker id.
    workers: HashMap<u32, WC>,
    /// The last job id handed out.
    job_cnt: u32,
    /// The submitted jobs, keyed by job id.
    jobs: HashMap<u32, Job>,
}

/// The mathematical value of a [`Coordinator`].
pub struct CoordinatorView {
    pub curr_id: u32,
    pub job_cnt: u32,
    pub workers: Map<u32, WCView>,
    pub jobs: Map<u32, JobView>,
}

pub open spec fn workers_view(m: Map<u32, WC>) -> Map<u32, WCView> {
    m.map_values(|w: WC| w@)
}

pub open spec fn jobs_view(m: Map<u32, Job>) -> Map<u32, JobView> {
    m.map_values(|j: Job| j@)
}

impl View for Coordinator {
    type V = CoordinatorView;

    closed spec fn view(&self) -> CoordinatorView {
        CoordinatorView {
            curr_id: self.curr_id,
            job_cnt: self.job_cnt,
            workers: workers_view(self.workers@),
            jobs: jobs_view(self.jobs@),
        }
    }
}

impl CoordinatorView {
    /// Task `e`, as recorded for a worker, is still in the job table.
    pub open spec fn resolves(self, e: SubJobView) -> bool {
        &&& self.jobs.contains_key(e.parent_job_id)
        &&& if e.type_job == JobType::MapJob {
            self.jobs[e.parent_job_id].map_jobs.contains_key(e.id)
        } else {
            self.jobs[e.parent_job_id].reduce_jobs.contains_key(e.id)
        }
    }

    /// Every task in `es` is still in the job table.
    pub open spec fn all_resolve(self, es: Seq<SubJobView>) -> bool {
        forall|j: int| 0 <= j < es.len() ==> self.resolves(#[trigger] es[j])
    }

    /// The invariant of the coordinator: job and worker ids are those handed
    /// out so far, each job and worker is stored under its own id, each job is
    /// well formed, and every task recorded for a worker is in the job table.
    pub open spec fn wf(self) -> bool {
        &&& forall|k: u32| #[trigger] self.jobs.contains_key(k) ==> {
            &&& 1 <= k <= self.job_cnt
            &&& self.jobs[k].job_id == k
            &&& self.jobs[k].wf()
        }
        &&& forall|w: u32| #[trigger] self.workers.contains_key(w) ==> {
            &&& 1 <= w <= self.curr_id
            &&& self.workers[w].worker_id == w
            &&& self.all_resolve(self.workers[w].jobs_done)
        }
    }

    /// The state after job `j` is stored under its id.
    pub open spec fn with_job(self, j: JobView) -> CoordinatorView {
        CoordinatorView { jobs: self.jobs.insert(j.job_id, j), ..self }
    }

    /// The state after worker `w` registers at time `t`.
    pub open spec fn with_new_worker(self, w: u32, t: u128) -> CoordinatorView {
        CoordinatorView {
            curr_id: w,
            workers: self.workers.insert(w, WCView { worker_id: w, hb_t: t, jobs_done: Seq::empty() }),
            ..self
        }
    }

    /// The state after a heartbeat of worker `w` at time `now`.
    pub open spec fn with_heartbeat(self, w: u32, now: u128) -> CoordinatorView {
        if self.workers.contains_key(w) {
            CoordinatorView {
                workers: self.workers.insert(w, WCView { hb_t: now, ..self.workers[w] }),
                ..self
            }
        } else {
            self
        }
    }

    /// The state after worker `w` reports task `i` (map when `t` is 0, reduce
    /// otherwise) of job `p` as completed.
    pub open spec fn with_done_report(self, p: u32, i: u32, t: u32) -> CoordinatorView {
        self.with_job(
            if t == 0 {
                self.jobs[p].map_marked_done(i)
            } else {
                self.jobs[p].reduce_marked_done(i).done_recomputed()
            },
        )
    }

    /// The state after a job is submitted with the given files and settings.
    pub open spec fn with_submitted(
        self,
        files: Seq<Seq<char>>,
        output_dir: Seq<char>,
        app: Seq<char>,
        n_reduce: u32,
        args: Seq<u8>,
    ) -> CoordinatorView {
        let id = (self.job_cnt + 1) as u32;
        CoordinatorView {
            job_cnt: id,
            jobs: self.jobs.insert(id, submitted_job(id, files, output_dir, app, n_reduce, args)),
            ..self
        }
    }

    /// The keys of the tasks recorded for workers that are dead at `now`.
    pub open spec fn lost_tasks(self, now: u128) -> Set<(u32, u32, JobType)> {
        Set::new(
            |e: (u32, u32, JobType)|
                exists|w: u32, j: int|
                    {
                        &&& self.workers.contains_key(w)
                        &&& dead_at(self.workers[w].hb_t, now)
                        &&& 0 <= j < self.workers[w].jobs_done.len()
                        &&& #[trigger] task_key(self.workers[w].jobs_done[j]) == e
                    },
        )
    }

    /// The workers that are alive at `now`.
    pub open spec fn live_workers(self, now: u128) -> Map<u32, WCView> {
        Map::new(
            |w: u32| self.workers.contains_key(w) && !dead_at(self.workers[w].hb_t, now),
            |w: u32| self.workers[w],
        )
    }

    /// The state after the workers that are dead at `now` are dropped and the
    /// tasks recorded for them are taken back.
    pub open spec fn swept(self, now: u128) -> CoordinatorView {
        CoordinatorView {
            workers: self.live_workers(now),
            jobs: self.jobs.map_values(|job: JobView| job.taken_back(self.lost_tasks(now))),
            ..self
        }
    }

    /// Job `k` has a task to hand out, and no job of a smaller id has one.
    pub open spec fn first_with_work(self, k: u32) -> bool {
        &&& self.jobs.contains_key(k)
        &&& self.jobs[k].has_work()
        &&& forall|k2: u32| #[trigger] self.jobs.contains_key(k2) && self.jobs[k2].has_work() ==> k <= k2
    }

    /// Some job has a task to hand out.
    pub open spec fn some_job_has_work(self) -> bool {
        exists|k: u32| #[trigger] self.jobs.contains_key(k) && self.jobs[k].has_work()
    }

    /// The state after task `i` of table `t` of job `k` is handed to worker `w`
    /// and recorded for it.
    pub open spec fn with_assignment(self, k: u32, t: JobType, i: u32, w: u32) -> CoordinatorView {
        let job = self.jobs[k];
        let s = if t == JobType::MapJob {
            job.map_jobs[i]
        } else {
            job.reduce_jobs[i]
        };
        CoordinatorView {
            jobs: self.jobs.insert(k, job.with_sub_job(t, i, s.assigned_to(w))),
            workers: self.workers.insert(
                w,
                WCView { jobs_done: self.workers[w].jobs_done.push(s.assigned_to(w)), ..self.workers[w] },
            ),
            ..self
        }
    }

    /// `new` and `rep` result from handing worker `w` a pending task of job
    /// `k`: a map task while some map task has not completed, a reduce task
    /// (naming the workers that hold the map output) once all have.
    pub open spec fn hands_out(self, k: u32, w: u32, new: CoordinatorView, rep: ReplyView) -> bool {
        let job = self.jobs[k];
        let i = rep.job_id;
        if !job.all_map_done() {
            &&& job.map_jobs.contains_key(i)
            &&& job.map_jobs[i].unassigned()
            &&& rep == map_reply(job.map_jobs[i])
            &&& new == self.with_assignment(k, JobType::MapJob, i, w)
        } else {
            &&& job.reduce_jobs.contains_key(i)
            &&& job.reduce_jobs[i].unassigned()
            &&& rep == reduce_reply(job.reduce_jobs[i], rep.worker_ids)
            &&& lists_map_workers(rep.worker_ids, job.map_jobs)
            &&& new == self.with_assignment(k, JobType::ReduceJob, i, w)
        }
    }

    /// Time `t` is no earlier than any recorded heartbeat.
    pub open spec fn not_before_heartbeats(self, t: u128) -> bool {
        forall|w: u32| #[trigger] self.workers.contains_key(w) ==> self.workers[w].hb_t <= t
    }

    /// Worker `w` may ask for a task at time `now`: it is registered and alive.
    pub open spec fn may_request(self, w: u32, now: u128) -> bool {
        self.workers.contains_key(w) && !dead_at(self.workers[w].hb_t, now)
    }

    /// `new` and `rep` are the state and reply after worker `w` asks for a task
    /// at time `now`: with no jobs, nothing changes and no task is handed out;
    /// otherwise the workers dead at `now` are swept out, and a pending task of
    /// the job of smallest id that has one is handed to `w`, if any job has one.
    pub open spec fn serves(self, w: u32, now: u128, new: CoordinatorView, rep: ReplyView) -> bool {
        if self.jobs.is_empty() {
            new == self && rep == idle_reply()
        } else {
            let sw = self.swept(now);
            if sw.some_job_has_work() {
                &&& sw.first_with_work(rep.parent_job_id)
                &&& sw.hands_out(rep.parent_job_id, w, new, rep)
            } else {
                new == sw && rep == idle_reply()
            }
        }
    }

    /// `new` and `r` are the state and answer after worker `w` asks for a task
    /// at time `now`: with jobs in the table, a worker that is unknown or dead
    /// at `now` is refused and nothing changes; otherwise the request is served.
    pub open spec fn answers(self, w: u32, now: u128, new: CoordinatorView, r: Option<ReplyView>) -> bool {
        match r {
            None => !self.jobs.is_empty() && !self.may_request(w, now) && new == self,
            Some(rep) => (self.jobs.is_empty() || self.may_request(w, now)) && self.serves(w, now, new, rep),
        }
    }

    /// Task `i` of job `p` (of either kind) is recorded for worker `w`.
    pub open spec fn records_task(self, w: u32, p: u32, i: u32) -> bool {
        exists|j: int|
            0 <= j < self.workers[w].jobs_done.len() && (#[trigger] self.workers[w].jobs_done[j]).parent_job_id
                == p && self.workers[w].jobs_done[j].id == i
    }

    /// The state after worker `w` reports that it could not fetch the input of
    /// reduce task `i` of job `p`: when that task is recorded for `w`, it is
    /// taken back from its worker.
    pub open spec fn with_connect_error(self, w: u32, p: u32, i: u32) -> CoordinatorView {
        if self.records_task(w, p, i) {
            self.with_job(
                self.jobs[p].with_sub_job(JobType::ReduceJob, i, self.jobs[p].reduce_jobs[i].unassigned_again()),
            )
        } else {
            self
        }
    }

    /// The status of job `id`.
    pub open spec fn poll(self, id: u32) -> Result<PollView, CoordinatorError> {
        if self.jobs.contains_key(id) {
            Ok(
                PollView {
                    done: self.jobs[id].done,
                    failed: self.jobs[id].failed,
                    errors: self.jobs[id].errors,
                },
            )
        } else {
            Err(CoordinatorError::JobNotFound)
        }
    }
}

/// A call that changes the coordinator, with its arguments and, for a task
/// request, the answer it got.
pub enum Operation {
    /// A worker registers at time `now`.
    Register { now: u128 },
    /// Worker `w` sends a heartbeat at time `now`.
    Heartbeat { w: u32, now: u128 },
    /// A job is submitted; `app_found` tells whether its application exists.
    Submit {
        files: Seq<Seq<char>>,
        output_dir: Seq<char>,
        app: Seq<char>,
        n_reduce: u32,
        args: Seq<u8>,
        app_found: bool,
    },
    /// Worker `w` asks for a task at time `now` and is answered `reply`.
    Request { w: u32, now: u128, reply: Option<ReplyView> },
    /// Worker `w` reports that it could not fetch the input of task `i` of job `p`.
    ConnectError { w: u32, p: u32, i: u32 },
    /// A failure of job `p` is reported with message `error`.
    Failure { p: u32, error: Seq<char> },
    /// Task `i` (map when `t` is 0, reduce otherwise) of job `p` is reported done.
    Done { p: u32, i: u32, t: u32 },
}

impl CoordinatorView {
    /// Operation `op` may be called on this state: the state is well formed
    /// and the arguments meet what the coordinator's method asks of them.
    pub open spec fn allows(self, op: Operation) -> bool {
        &&& self.wf()
        &&& match op {
            Operation::ConnectError { w, p, i } => self.workers.contains_key(w) && (self.records_task(w, p, i)
                ==> self.jobs[p].reduce_jobs.contains_key(i)),
            _ => true,
        }
    }

    /// `new` is the state after operation `op` on this state, as the
    /// coordinator's methods state it.
    pub open spec fn performs(self, op: Operation, new: CoordinatorView) -> bool {
        match op {
            Operation::Register { now } => self.curr_id < u32::MAX && new == self.with_new_worker(
                (self.curr_id + 1) as u32,
                now,
            ),
            Operation::Heartbeat { w, now } => new == self.with_heartbeat(w, now),
            Operation::Submit { files, output_dir, app, n_reduce, args, app_found } => if app_found {
                self.job_cnt < u32::MAX && new == self.with_submitted(files, output_dir, app, n_reduce, args)
            } else {
                new == self
            },
            Operation::Request { w, now, reply } => self.answers(w, now, new, reply),
            Operation::ConnectError { w, p, i } => new == self.with_connect_error(w, p, i),
            Operation::Failure { p, error } => self.jobs.contains_key(p) && new == self.with_job(
                self.jobs[p].failed_with(error),
            ),
            Operation::Done { p, i, t } => self.jobs.contains_key(p) && new == self.with_done_report(p, i, t),
        }
    }
}

/// Every job and task of `c` is still present in `d`.
pub open spec fn tables_grow(c: CoordinatorView, d: CoordinatorView) -> bool {
    forall|k: u32| #[trigger] c.jobs.contains_key(k) ==> {
        &&& d.jobs.contains_key(k)
        &&& c.jobs[k].map_jobs.dom().subset_of(d.jobs[k].map_jobs.dom())
        &&& c.jobs[k].reduce_jobs.dom().subset_of(d.jobs[k].reduce_jobs.dom())
    }
}

proof fn lemma_tables_grow(c: CoordinatorView, d: CoordinatorView, es: Seq<SubJobView>)
    requires
        c.all_resolve(es),
        tables_grow(c, d),
    ensures
        d.all_resolve(es),
{
    assert forall|j: int| 0 <= j < es.len() implies d.resolves(#[trigger] es[j]) by {
        assert(c.resolves(es[j]));
        assert(c.jobs.contains_key(es[j].parent_job_id));
    }
}

/// When the tables only grow and the workers keep their tasks, the tasks of
/// every worker still resolve.
proof fn lemma_workers_resolve(c: CoordinatorView, d: CoordinatorView)
    requires
        c.wf(),
        tables_grow(c, d),
        forall|w: u32| #[trigger] d.workers.contains_key(w) ==> c.workers.contains_key(w)
            && d.workers[w].jobs_done == c.workers[w].jobs_done,
    ensures
        forall|w: u32| #[trigger] d.workers.contains_key(w) ==> d.all_resolve(d.workers[w].jobs_done),
{
    assert forall|w: u32| #[trigger] d.workers.contains_key(w) implies d.all_resolve(
        d.workers[w].jobs_done,
    ) by {
        lemma_tables_grow(c, d, c.workers[w].jobs_done);
    }
}

proof fn lemma_workers_view_insert(m: Map<u32, WC>, k: u32, w: WC)
    ensures
        workers_view(m.insert(k, w)) == workers_view(m).insert(k, w@),
{
    assert(workers_view(m.insert(k, w)) =~= workers_view(m).insert(k, w@));
}

proof fn lemma_workers_view_remove(m: Map<u32, WC>, k: u32)
    ensures
        workers_view(m.remove(k)) == workers_view(m).remove(k),
{
    assert(workers_view(m.remove(k)) =~= workers_view(m).remove(k));
}

proof fn lemma_jobs_view_insert(m: Map<u32, Job>, k: u32, j: Job)
    ensures
        jobs_view(m.insert(k, j)) == jobs_view(m).insert(k, j@),
{
    assert(jobs_view(m.insert(k, j)) =~= jobs_view(m).insert(k, j@));
}

proof fn lemma_jobs_view_remove(m: Map<u32, Job>, k: u32)
    ensures
        jobs_view(m.remove(k)) == jobs_view(m).remove(k),
{
    assert(jobs_view(m.remove(k)) =~= jobs_view(m).remove(k));
}

/// The view of an optional reply.
pub open spec fn opt_reply_view(r: Option<JobRequestReply>) -> Option<ReplyView> {
    match r {
        Some(rep) => Some(rep@),
        None => None,
    }
}

/// Sweeping out dead workers keeps the invariant.
proof fn lemma_swept_wf(c: CoordinatorView, now: u128)
    requires
        c.wf(),
    ensures
        c.swept(now).wf(),
        tables_grow(c, c.swept(now)),
{
    let d = c.swept(now);
    let lost = c.lost_tasks(now);
    assert forall|k: u32| #[trigger] d.jobs.contains_key(k) implies {
        &&& 1 <= k <= d.job_cnt
        &&& d.jobs[k].job_id == k
        &&& d.jobs[k].wf()
    } by {
        assert(c.jobs.contains_key(k));
        assert(d.jobs[k] == c.jobs[k].taken_back(lost));
    }
    assert forall|k: u32| #[trigger] c.jobs.contains_key(k) implies {
        &&& d.jobs.contains_key(k)
        &&& c.jobs[k].map_jobs.dom().subset_of(d.jobs[k].map_jobs.dom())
        &&& c.jobs[k].reduce_jobs.dom().subset_of(d.jobs[k].reduce_jobs.dom())
    } by {
        assert(d.jobs[k] == c.jobs[k].taken_back(lost));
    }
    assert(tables_grow(c, d));
    assert forall|w: u32| #[trigger] d.workers.contains_key(w) implies {
        &&& 1 <= w <= d.curr_id
        &&& d.workers[w].worker_id == w
        &&& d.all_resolve(d.workers[w].jobs_done)
    } by {
        assert(c.workers.contains_key(w));
        lemma_tables_grow(c, d, c.workers[w].jobs_done);
    }
}

/// Handing out a pending task keeps the invariant.
proof fn lemma_assignment_wf(c: CoordinatorView, k: u32, t: JobType, i: u32, w: u32)
    requires
        c.wf(),
        c.jobs.contains_key(k),
        c.workers.contains_key(w),
        t == JobType::MapJob ==> c.jobs[k].map_jobs.contains_key(i),
        t == JobType::ReduceJob ==> c.jobs[k].reduce_jobs.contains_key(i),
    ensures
        c.with_assignment(k, t, i, w).wf(),
{
    let d = c.with_assignment(k, t, i, w);
    assert(tables_grow(c, d));
    assert forall|v: u32| #[trigger] d.workers.contains_key(v) implies d.all_resolve(
        d.workers[v].jobs_done,
    ) by {
        lemma_tables_grow(c, d, c.workers[v].jobs_done);
        if v == w {
            let es = d.workers[v].jobs_done;
            assert forall|j: int| 0 <= j < es.len() implies d.resolves(#[trigger] es[j]) by {
                if j < c.workers[v].jobs_done.len() {
                    assert(es[j] == c.workers[v].jobs_done[j]);
                }
            }
        }
    }
}

/// Copies a list of strings.
fn clone_strings(v: &Vec<String>) -> (r: Vec<String>)
    ensures
        r@.map_values(|e: String| e@) == v@.map_values(|e: String| e@),
{
    let mut r: Vec<String> = Vec::new();
    for i in 0..v.len()
        invariant
            r@.len() == i,
            forall|j: int| 0 <= j < i ==> (#[trigger] r@[j])@ == v@[j]@,
    {
        r.push(v[i].clone());
    }
    assert(r@.map_values(|e: String| e@) =~= v@.map_values(|e: String| e@));
    r
}

impl Default for Coordinator {
    /// A coordinator with no jobs and no workers.
    fn default() -> (r: Coordinator)
        ensures
            r@ == (CoordinatorView {
                curr_id: 0,
                job_cnt: 0,
                workers: Map::empty(),
                jobs: Map::empty(),
            }),
            r@.wf(),
    {
        Coordinator::new()
    }
}

impl Coordinator {
    /// A coordinator with no jobs and no workers.
    pub fn new() -> (r: Coordinator)
        ensures
            r@ == (CoordinatorView {
                curr_id: 0,
                job_cnt: 0,
                workers: Map::empty(),
                jobs: Map::empty(),
            }),
            r@.wf(),
    {
        let r = Coordinator { curr_id: 0, workers: HashMap::new(), job_cnt: 0, jobs: HashMap::new() };
        assert(r@.workers =~= Map::empty());
        assert(r@.jobs =~= Map::empty());
        r
    }

    /// Hands out the next job id.
    pub fn get_new_job_id(&mut self) -> (r: u32)
        requires
            old(self)@.wf(),
            old(self)@.job_cnt < u32::MAX,
        ensures
            r == old(self)@.job_cnt + 1,
            final(self)@ == (CoordinatorView { job_cnt: r, ..old(self)@ }),
            final(self)@.wf(),
    {
        self.job_cnt = self.job_cnt + 1;
        self.job_cnt
    }

    /// Stores job `j` under its id, replacing what was stored there. The
    /// invariant is kept when the job is well formed and its id is one handed
    /// out by [`Coordinator::get_new_job_id`] and not yet in use.
    pub fn add_job(&mut self, j: Job)
        ensures
            final(self)@ == old(self)@.with_job(j@),
            old(self)@.wf() && j@.wf() && 1 <= j.job_id <= old(self)@.job_cnt && !old(
                self,
            )@.jobs.contains_key(j.job_id) ==> final(self)@.wf(),
    {
        let id = j.job_id;
        proof { lemma_jobs_view_insert(self.jobs@, id, j); }
        self.jobs.insert(id, j);
        proof {
            if old(self)@.wf() && j@.wf() && 1 <= id <= old(self)@.job_cnt && !old(self)@.jobs.contains_key(id) {
                assert(self@.jobs == old(self)@.jobs.insert(id, j@));
                assert forall|k: u32| #[trigger] self@.jobs.contains_key(k) implies {
                    &&& 1 <= k <= self@.job_cnt
                    &&& self@.jobs[k].job_id == k
                    &&& self@.jobs[k].wf()
                } by {
                    if k != id {
                        assert(old(self)@.jobs.contains_key(k));
                    }
                }
                assert(tables_grow(old(self)@, self@));
                lemma_workers_resolve(old(self)@, self@);
                assert(self@.workers == old(self)@.workers);
                assert(self@.curr_id == old(self)@.curr_id);
                assert(self@.job_cnt == old(self)@.job_cnt);
            }
        }
    }

    /// Registers a new worker whose last heartbeat is at time `now`, and
    /// returns its id.
    pub fn add_worker_at(&mut self, now: u128) -> (r: u32)
        requires
            old(self)@.wf(),
            old(self)@.curr_id < u32::MAX,
        ensures
            r == old(self)@.curr_id + 1,
            !old(self)@.workers.contains_key(r),
            final(self)@ == old(self)@.with_new_worker(r, now),
            final(self)@.wf(),
    {
        self.curr_id = self.curr_id + 1;
        let id = self.curr_id;
        let w = WC { worker_id: id, hb_t: now, jobs_done: Vec::new() };
        assert(w@.jobs_done =~= Seq::empty());
        proof { lemma_workers_view_insert(self.workers@, id, w); }
        self.workers.insert(id, w);
        proof {
            assert forall|v: u32| #[trigger] self@.workers.contains_key(v) implies self@.all_resolve(
                self@.workers[v].jobs_done,
            ) by {
                if v != id {
                    assert(old(self)@.workers.contains_key(v));
                }
            }
        }
        id
    }

    /// The current time, in milliseconds since the Unix epoch: the clock's
    /// reading, or the latest recorded heartbeat when the clock reads earlier
    /// than that, so that the times the coordinator records and compares never
    /// run backwards.
    fn current_time(&self) -> (t: u128)
        ensures
            self@.not_before_heartbeats(t),
    {
        let mut t = get_time();
        for (k, w) in it: self.workers.iter()
            invariant
                it.seq() == vstd::std_specs::hash::spec_hash_map_iter(&self.workers).remaining(),
                forall|j: int| 0 <= j < it.index() ==> (#[trigger] it.seq()[j]).1.hb_t <= t,
        {
            if w.hb_t > t {
                t = w.hb_t;
            }
        }
        proof {
            assert forall|w: u32| #[trigger] self@.workers.contains_key(w) implies self@.workers[w].hb_t <= t by {
                let s = vstd::std_specs::hash::spec_hash_map_iter(&self.workers).remaining();
                assert(self.workers@.contains_key(w));
                assert(s.contains((&w, &self.workers@[w])));
                let j = choose|j: int| 0 <= j < s.len() && s[j] == (&w, &self.workers@[w]);
                assert(s[j].1.hb_t <= t);
            }
        }
        t
    }

    /// Registers a new worker, with a heartbeat at the current time, and
    /// returns its id. The new worker's heartbeat is no earlier than any
    /// recorded before.
    pub fn add_worker(&mut self) -> (r: u32)
        requires
            old(self)@.wf(),
            old(self)@.curr_id < u32::MAX,
        ensures
            r == old(self)@.curr_id + 1,
            !old(self)@.workers.contains_key(r),
            final(self)@ == old(self)@.with_new_worker(r, final(self)@.workers[r].hb_t),
            old(self)@.not_before_heartbeats(final(self)@.workers[r].hb_t),
            final(self)@.wf(),
    {
        let now = self.current_time();
        self.add_worker_at(now)
    }

    /// Records a heartbeat of worker `worker_id` at time `now`; no effect on an
    /// unknown worker.
    pub fn heart_beat_at(&mut self, worker_id: u32, now: u128)
        requires
            old(self)@.wf(),
        ensures
            final(self)@ == old(self)@.with_heartbeat(worker_id, now),
            final(self)@.wf(),
    {
        match self.workers.remove(&worker_id) {
            Some(mut w) => {
                w.update(now);
                proof {
                    assert(old(self).workers@.remove(worker_id).insert(worker_id, w)
                        =~= old(self).workers@.insert(worker_id, w));
                    lemma_workers_view_insert(old(self).workers@, worker_id, w);
                }
                self.workers.insert(worker_id, w);
            },
            None => {
                assert(self.workers@ =~= old(self).workers@);
            },
        }
    }

    /// Records a heartbeat of worker `worker_id` at the current time; no effect
    /// on an unknown worker. The recorded time is no earlier than any heartbeat
    /// recorded before, its own included.
    pub fn heart_beat(&mut self, worker_id: u32)
        requires
            old(self)@.wf(),
        ensures
            final(self)@ == old(self)@.with_heartbeat(worker_id, final(self)@.workers[worker_id].hb_t),
            old(self)@.workers.contains_key(worker_id) ==> old(self)@.not_before_heartbeats(
                final(self)@.workers[worker_id].hb_t,
            ),
            final(self)@.wf(),
    {
        let now = self.current_time();
        self.heart_beat_at(worker_id, now);
    }

    /// Submits a job: one map task per input file and `n_reduce` reduce tasks,
    /// under a new job id, which is returned; refused, with nothing changed,
    /// when no application named `app` exists (`app_found` is false).
    pub fn submit_job(
        &mut self,
        files: Vec<String>,
        output_dir: String,
        app: String,
        n_reduce: u32,
        args: Vec<u8>,
        app_found: bool,
    ) -> (r: Result<u32, CoordinatorError>)
        requires
            old(self)@.wf(),
            app_found ==> old(self)@.job_cnt < u32::MAX,
            app_found ==> files.len() < u32::MAX,
            app_found ==> n_reduce < u32::MAX,
        ensures
            !app_found ==> r == Err::<u32, CoordinatorError>(CoordinatorError::AppNotFound)
                && final(self)@ == old(self)@,
            app_found ==> r == Ok::<u32, CoordinatorError>((old(self)@.job_cnt + 1) as u32)
                && final(self)@ == old(self)@.with_submitted(
                files@.map_values(|f: String| f@),
                output_dir@,
                app@,
                n_reduce,
                args@,
            ),
            final(self)@.wf(),
    {
        if !app_found {
            return Err(CoordinatorError::AppNotFound);
        }
        let ghost fs = files@.map_values(|f: String| f@);
        let job_id = self.get_new_job_id();
        let mut job = Job::new(job_id);
        assert(job@.map_jobs =~= Map::new(
            |k: u32| 1 <= k <= 0,
            |k: u32| new_task(k, job_id, fs[k - 1], JobType::MapJob, app@, n_reduce, args@, output_dir@),
        ));
        let mut i: usize = 0;
        while i < files.len()
            invariant
                i <= files.len() < u32::MAX,
                fs == files@.map_values(|f: String| f@),
                job@ == (JobView {
                    map_jobs: Map::new(
                        |k: u32| 1 <= k <= i,
                        |k: u32|
                            new_task(
                                k,
                                job_id,
                                fs[k - 1],
                                JobType::MapJob,
                                app@,
                                n_reduce,
                                args@,
                                output_dir@,
                            ),
                    ),
                    reduce_jobs: Map::empty(),
                    ..submitted_job(job_id, fs, output_dir@, app@, n_reduce, args@)
                }),
            decreases files.len() - i,
        {
            let counter_map = (i + 1) as u32;
            let sub_job_map = SubJob {
                id: counter_map,
                parent_job_id: job_id,
                file: files[i].clone(),
                worker_id: 0,
                type_job: JobType::MapJob,
                app: app.clone(),
                n_reduce,
                args: clone_bytes(&args),
                done: false,
                failed: false,
                output_dir: output_dir.clone(),
            };
            let ghost before = job@;
            job.add_job(sub_job_map, JobType::MapJob);
            i = i + 1;
            proof {
                assert(job@.map_jobs =~= Map::new(
                    |k: u32| 1 <= k <= i,
                    |k: u32|
                        new_task(
                            k,
                            job_id,
                            fs[k - 1],
                            JobType::MapJob,
                            app@,
                            n_reduce,
                            args@,
                            output_dir@,
                        ),
                ));
            }
        }
        let mut counter_reduce: u32 = 1;
        assert(job@.reduce_jobs =~= Map::new(
            |k: u32| 1 <= k < 1,
            |k: u32|
                new_task(k, job_id, Seq::empty(), JobType::ReduceJob, app@, n_reduce, args@, output_dir@),
        ));
        assert(job@.map_jobs =~= submitted_job(job_id, fs, output_dir@, app@, n_reduce, args@).map_jobs);
        while counter_reduce <= n_reduce
            invariant
                1 <= counter_reduce <= n_reduce + 1,
                n_reduce < u32::MAX,
                job@ == (JobView {
                    reduce_jobs: Map::new(
                        |k: u32| 1 <= k < counter_reduce,
                        |k: u32|
                            new_task(
                                k,
                                job_id,
                                Seq::empty(),
                                JobType::ReduceJob,
                                app@,
                                n_reduce,
                                args@,
                                output_dir@,
                            ),
                    ),
                    ..submitted_job(job_id, fs, output_dir@, app@, n_reduce, args@)
                }),
            decreases n_reduce + 1 - counter_reduce,
        {
            let sub_job_reduce = SubJob {
                id: counter_reduce,
                parent_job_id: job_id,
                file: String::new(),
                worker_id: 0,
                type_job: JobType::ReduceJob,
                app: app.clone(),
                n_reduce,
                args: clone_bytes(&args),
                done: false,
                failed: false,
                output_dir: output_dir.clone(),
            };
            job.add_job(sub_job_reduce, JobType::ReduceJob);
            counter_reduce = counter_reduce + 1;
            proof {
                assert(job@.reduce_jobs =~= Map::new(
                    |k: u32| 1 <= k < counter_reduce,
                    |k: u32|
                        new_task(
                            k,
                            job_id,
                            Seq::empty(),
                            JobType::ReduceJob,
                            app@,
                            n_reduce,
                            args@,
                            output_dir@,
                        ),
                ));
            }
        }
        proof {
            assert(job@.reduce_jobs =~= submitted_job(job_id, fs, output_dir@, app@, n_reduce, args@).reduce_jobs);
            assert(job@ == submitted_job(job_id, fs, output_dir@, app@, n_reduce, args@));
            lemma_jobs_view_insert(self.jobs@, job_id, job);
        }
        self.jobs.insert(job_id, job);
        proof {
            assert(tables_grow(old(self)@, self@));
            lemma_workers_resolve(old(self)@, self@);
        }
        Ok(job_id)
    }

    /// The ids of the workers that are dead at `now`.
    fn dead_worker_ids(&self, now: u128) -> (r: Vec<u32>)
        ensures
            forall|j: int| 0 <= j < r@.len() ==> #[trigger] self@.workers.contains_key(r@[j])
                && dead_at(self@.workers[r@[j]].hb_t, now),
            forall|w: u32| #[trigger] self@.workers.contains_key(w) && dead_at(self@.workers[w].hb_t, now)
                ==> r@.contains(w),
    {
        let mut dead_keys: Vec<u32> = Vec::new();
        for (k, w) in it: self.workers.iter()
            invariant
                it.seq() == vstd::std_specs::hash::spec_hash_map_iter(&self.workers).remaining(),
                forall|j: int| 0 <= j < dead_keys@.len() ==> #[trigger] self@.workers.contains_key(dead_keys@[j])
                    && dead_at(self@.workers[dead_keys@[j]].hb_t, now),
                forall|j: int| 0 <= j < it.index() && dead_at((#[trigger] it.seq()[j]).1.hb_t, now)
                    ==> dead_keys@.contains(*it.seq()[j].0),
        {
            assert(self.workers@.contains_key(*k) && self.workers@[*k] == *w);
            assert(self@.workers.contains_key(*k) && self@.workers[*k] == w@);
            let ghost old_dk = dead_keys@;
            if worker_dead_at(w, now) {
                dead_keys.push(*k);
                proof {
                    assert(dead_keys@[dead_keys@.len() - 1] == *k);
                    assert(dead_keys@.contains(*k));
                    assert forall|x: u32| old_dk.contains(x) implies dead_keys@.contains(x) by {
                        let a = choose|a: int| 0 <= a < old_dk.len() && old_dk[a] == x;
                        assert(dead_keys@[a] == x);
                    }
                }
            }
        }
        proof {
            assert forall|w: u32| #[trigger] self@.workers.contains_key(w) && dead_at(self@.workers[w].hb_t, now)
                implies dead_keys@.contains(w) by {
                let s = vstd::std_specs::hash::spec_hash_map_iter(&self.workers).remaining();
                assert(self.workers@.contains_key(w));
                assert(s.contains((&w, &self.workers@[w])));
                let j = choose|j: int| 0 <= j < s.len() && s[j] == (&w, &self.workers@[w]);
                assert(dead_at(s[j].1.hb_t, now));
            }
        }
        dead_keys
    }

    /// Drops the workers that are dead at `now` and takes back the tasks
    /// recorded for them.
    fn sweep_dead_workers(&mut self, now: u128)
        requires
            old(self)@.wf(),
        ensures
            final(self)@ == old(self)@.swept(now),
            final(self)@.wf(),
    {
        let ghost c0 = self@;
        let dead_keys = self.dead_worker_ids(now);
        let ghost mut lost: Set<(u32, u32, JobType)> = Set::empty();
        let mut idx: usize = 0;
        proof {
            assert(self@.workers =~= Map::new(
                |w: u32| c0.workers.contains_key(w) && !(exists|j: int| 0 <= j < idx && dead_keys@[j] == w),
                |w: u32| c0.workers[w],
            ));
            assert(lost =~= Set::new(
                |e: (u32, u32, JobType)|
                    exists|j: int, m: int|
                        0 <= j < idx && 0 <= m < c0.workers[dead_keys@[j]].jobs_done.len()
                            && #[trigger] task_key(c0.workers[dead_keys@[j]].jobs_done[m]) == e,
            ));
            assert forall|k: u32| #[trigger] c0.jobs.contains_key(k) implies c0.jobs[k].taken_back(lost)
                == c0.jobs[k] by {
                if !c0.jobs[k].done {
                    assert(c0.jobs[k].taken_back(lost).map_jobs =~= c0.jobs[k].map_jobs);
                    assert(c0.jobs[k].taken_back(lost).reduce_jobs =~= c0.jobs[k].reduce_jobs);
                }
            }
            assert(self@.jobs =~= c0.jobs.map_values(|job: JobView| job.taken_back(lost)));
        }
        while idx < dead_keys.len()
            invariant
                c0.wf(),
                0 <= idx <= dead_keys@.len(),
                forall|j: int| 0 <= j < dead_keys@.len() ==> #[trigger] c0.workers.contains_key(dead_keys@[j])
                    && dead_at(c0.workers[dead_keys@[j]].hb_t, now),
                self@.curr_id == c0.curr_id,
                self@.job_cnt == c0.job_cnt,
                self@.workers == Map::new(
                    |w: u32| c0.workers.contains_key(w) && !(exists|j: int| 0 <= j < idx && dead_keys@[j] == w),
                    |w: u32| c0.workers[w],
                ),
                lost == Set::new(
                    |e: (u32, u32, JobType)|
                        exists|j: int, m: int|
                            0 <= j < idx && 0 <= m < c0.workers[dead_keys@[j]].jobs_done.len()
                                && #[trigger] task_key(c0.workers[dead_keys@[j]].jobs_done[m]) == e,
                ),
                self@.jobs == c0.jobs.map_values(|job: JobView| job.taken_back(lost)),
            decreases dead_keys@.len() - idx,
        {
            let key = dead_keys[idx];
            let ghost lost_before = lost;
            let ghost workers_before = self@.workers;
            let ghost wm = self.workers@;
            match self.workers.remove(&key) {
                Some(wc) => {
                    proof {
                        lemma_workers_view_remove(wm, key);
                        assert(wm.contains_key(key) && wm[key] == wc);
                        assert(workers_view(wm) == workers_before);
                        assert(workers_view(wm)[key] == wc@);
                        assert(workers_before.contains_key(key));
                        assert(workers_before[key] == c0.workers[key]);
                        assert(workers_view(self.workers@) == workers_before.remove(key));
                        assert(wc@ == c0.workers[key]);
                        assert(c0.all_resolve(wc@.jobs_done));
                    }
                    let mut m: usize = 0;
                    while m < wc.jobs_done.len()
                        invariant
                            c0.wf(),
                            c0.workers.contains_key(key),
                            wc@ == c0.workers[key],
                            0 <= m <= wc.jobs_done@.len(),
                            self@.curr_id == c0.curr_id,
                            self@.job_cnt == c0.job_cnt,
                            self@.workers == workers_before.remove(key),
                            lost == Set::new(
                                |e: (u32, u32, JobType)|
                                    lost_before.contains(e) || exists|mm: int|
                                        0 <= mm < m && #[trigger] task_key(wc@.jobs_done[mm]) == e,
                            ),
                            self@.jobs == c0.jobs.map_values(|job: JobView| job.taken_back(lost)),
                        decreases wc.jobs_done@.len() - m,
                    {
                        let p = wc.jobs_done[m].parent_job_id;
                        let i = wc.jobs_done[m].id;
                        let t = wc.jobs_done[m].type_job;
                        let ghost jobs_before = self@.jobs;
                        let ghost lost_m = lost;
                        proof {
                            assert(wc@.jobs_done[m as int] == wc.jobs_done@[m as int]@);
                            assert(c0.resolves(wc@.jobs_done[m as int]));
                            assert(c0.jobs.contains_key(p));
                        }
                        let ghost jm = self.jobs@;
                        proof {
                            assert(self@.jobs.contains_key(p));
                            assert(jobs_view(jm).contains_key(p));
                            assert(jm.contains_key(p));
                        }
                        let mut job = self.jobs.remove(&p).unwrap();
                        proof {
                            lemma_jobs_view_remove(jm, p);
                            assert(jm[p] == job);
                            assert(jobs_view(jm)[p] == job@);
                            assert(job@ == c0.jobs[p].taken_back(lost_m));
                        }
                        job.take_back(i, t);
                        proof {
                            lemma_take_back_step(c0.jobs[p], lost_m, i, t);
                            lost = lost.insert((p, i, t));
                            lemma_jobs_view_insert(self.jobs@, p, job);
                        }
                        self.jobs.insert(p, job);
                        m = m + 1;
                        proof {
                            assert forall|k: u32| #[trigger] c0.jobs.contains_key(k) && k != p implies c0.jobs[
                                k
                            ].taken_back(lost) == c0.jobs[k].taken_back(lost_m) by {
                                lemma_take_back_other(c0.jobs[k], lost_m, (p, i, t));
                            }
                            assert(self@.jobs =~= c0.jobs.map_values(|job: JobView| job.taken_back(lost)));
                            assert(task_key(wc@.jobs_done[m - 1]) == (p, i, t));
                            assert(lost =~= Set::new(
                                |e: (u32, u32, JobType)|
                                    lost_before.contains(e) || exists|mm: int|
                                        0 <= mm < m && #[trigger] task_key(wc@.jobs_done[mm]) == e,
                            ));
                        }
                    }
                    proof {
                        assert(lost =~= Set::new(
                            |e: (u32, u32, JobType)|
                                exists|j: int, m: int|
                                    0 <= j < idx + 1 && 0 <= m < c0.workers[dead_keys@[j]].jobs_done.len()
                                        && #[trigger] task_key(c0.workers[dead_keys@[j]].jobs_done[m]) == e,
                        ));
                    }
                },
                None => {
                    proof {
                        lemma_workers_view_remove(wm, key);
                        assert(!workers_before.contains_key(key));
                        let j0 = choose|j: int| 0 <= j < idx && dead_keys@[j] == key;
                        assert(lost =~= Set::new(
                            |e: (u32, u32, JobType)|
                                exists|j: int, m: int|
                                    0 <= j < idx + 1 && 0 <= m < c0.workers[dead_keys@[j]].jobs_done.len()
                                        && #[trigger] task_key(c0.workers[dead_keys@[j]].jobs_done[m]) == e,
                        )) by {
                            assert forall|e: (u32, u32, JobType)|
                                (exists|j: int, m: int|
                                    0 <= j < idx + 1 && 0 <= m < c0.workers[dead_keys@[j]].jobs_done.len()
                                        && #[trigger] task_key(c0.workers[dead_keys@[j]].jobs_done[m]) == e)
                                implies lost.contains(e) by {
                                let (j, m) = choose|j: int, m: int|
                                    0 <= j < idx + 1 && 0 <= m < c0.workers[dead_keys@[j]].jobs_done.len()
                                        && #[trigger] task_key(c0.workers[dead_keys@[j]].jobs_done[m]) == e;
                                if j == idx {
                                    assert(task_key(c0.workers[dead_keys@[j0]].jobs_done[m]) == e);
                                }
                            }
                        }
                    }
                },
            }
            idx = idx + 1;
            proof {
                assert(self@.workers =~= Map::new(
                    |w: u32| c0.workers.contains_key(w) && !(exists|j: int| 0 <= j < idx && dead_keys@[j] == w),
                    |w: u32| c0.workers[w],
                ));
            }
        }
        proof {
            assert(self@.workers =~= c0.live_workers(now));
            assert(lost =~= c0.lost_tasks(now)) by {
                assert forall|e: (u32, u32, JobType)| c0.lost_tasks(now).contains(e) implies lost.contains(e) by {
                    let (w, m) = choose|w: u32, m: int|
                        {
                            &&& c0.workers.contains_key(w)
                            &&& dead_at(c0.workers[w].hb_t, now)
                            &&& 0 <= m < c0.workers[w].jobs_done.len()
                            &&& #[trigger] task_key(c0.workers[w].jobs_done[m]) == e
                        };
                    assert(dead_keys@.contains(w));
                    let j = choose|j: int| 0 <= j < dead_keys@.len() && dead_keys@[j] == w;
                    assert(task_key(c0.workers[dead_keys@[j]].jobs_done[m]) == e);
                }
                assert forall|e: (u32, u32, JobType)| lost.contains(e) implies c0.lost_tasks(now).contains(e) by {
                    let (j, m) = choose|j: int, m: int|
                        0 <= j < dead_keys@.len() && 0 <= m < c0.workers[dead_keys@[j]].jobs_done.len()
                            && #[trigger] task_key(c0.workers[dead_keys@[j]].jobs_done[m]) == e;
                    let w = dead_keys@[j];
                    assert(c0.workers.contains_key(w));
                    assert(task_key(c0.workers[w].jobs_done[m]) == e);
                }
            }
            assert(self@ == c0.swept(now));
            lemma_swept_wf(c0, now);
        }
    }

    /// The id of the job of smallest id that has a task to hand out, if any.
    fn first_job_with_work(&self) -> (r: Option<u32>)
        ensures
            r matches Some(k) ==> self@.first_with_work(k),
            r is None ==> !self@.some_job_has_work(),
    {
        let mut best: Option<u32> = None;
        for (k, job) in it: self.jobs.iter()
            invariant
                it.seq() == vstd::std_specs::hash::spec_hash_map_iter(&self.jobs).remaining(),
                best matches Some(b) ==> self@.jobs.contains_key(b) && self@.jobs[b].has_work(),
                forall|j: int|
                    0 <= j < it.index() && (#[trigger] it.seq()[j]).1@.has_work() ==> (best matches Some(
                        b,
                    ) && b <= *it.seq()[j].0),
        {
            assert(self.jobs@.contains_key(*k) && self.jobs@[*k] == *job);
            assert(self@.jobs.contains_key(*k) && self@.jobs[*k] == job@);
            if job.has_work() {
                match best {
                    None => {
                        best = Some(*k);
                    },
                    Some(b) => {
                        if *k < b {
                            best = Some(*k);
                        }
                    },
                }
            }
        }
        proof {
            let s = vstd::std_specs::hash::spec_hash_map_iter(&self.jobs).remaining();
            assert forall|k2: u32| #[trigger] self@.jobs.contains_key(k2) && self@.jobs[k2].has_work()
                implies (best matches Some(b) && b <= k2) by {
                assert(self.jobs@.contains_key(k2));
                assert(s.contains((&k2, &self.jobs@[k2])));
                let j = choose|j: int| 0 <= j < s.len() && s[j] == (&k2, &self.jobs@[k2]);
                assert(s[j].1@.has_work());
            }
        }
        best
    }

    /// Serves a request of worker `worker_id` for a task at time `now`: when
    /// there are jobs, drops the workers that are dead at `now` and takes their
    /// tasks back, then hands `worker_id` a pending task of the job of smallest
    /// id that has one, recording it for the worker. The reply describes the
    /// task, or says that there is none (`valid` is 0).
    pub fn job_request_at(&mut self, worker_id: u32, now: u128) -> (r: JobRequestReply)
        requires
            old(self)@.wf(),
            !old(self)@.jobs.is_empty() ==> old(self)@.may_request(worker_id, now),
        ensures
            old(self)@.serves(worker_id, now, final(self)@, r@),
            final(self)@.wf(),
    {
        if self.jobs.is_empty() {
            let r = JobRequestReply {
                file: String::new(),
                args: Vec::new(),
                job_type: 0,
                app: String::new(),
                worker_ids: Vec::new(),
                parent_job_id: 0,
                job_id: 0,
                reduce_bucket: 0,
                valid: 0,
                n_reduce: 0,
                output_dir: String::new(),
            };
            assert(r@ =~= idle_reply());
            return r;
        }
        self.sweep_dead_workers(now);
        let ghost sw = self@;
        match self.first_job_with_work() {
            None => {
                let r = JobRequestReply {
                    file: String::new(),
                    args: Vec::new(),
                    job_type: 0,
                    app: String::new(),
                    worker_ids: Vec::new(),
                    parent_job_id: 0,
                    job_id: 0,
                    reduce_bucket: 0,
                    valid: 0,
                    n_reduce: 0,
                    output_dir: String::new(),
                };
                assert(r@ =~= idle_reply());
                r
            },
            Some(k) => {
                let ghost jm = self.jobs@;
                let mut job = self.jobs.remove(&k).unwrap();
                proof {
                    lemma_jobs_view_remove(jm, k);
                    assert(job@ == sw.jobs[k]);
                }
                let in_map_phase = !job.all_map_done();
                let res = if in_map_phase {
                    job.assign_and_ret_map_job(worker_id)
                } else {
                    job.assign_and_ret_reduce_job(worker_id)
                };
                let ghost jm2 = self.jobs@;
                proof {
                    lemma_jobs_view_insert(jm2, k, job);
                    assert(jm.remove(k).insert(k, job) =~= jm.insert(k, job));
                    lemma_jobs_view_insert(jm, k, job);
                }
                self.jobs.insert(k, job);
                match res {
                    Some((rep, _p, sj)) => {
                        let ghost wm = self.workers@;
                        proof {
                            assert(sw.workers.contains_key(worker_id));
                            assert(wm.contains_key(worker_id));
                        }
                        let mut wc = self.workers.remove(&worker_id).unwrap();
                        proof {
                            lemma_workers_view_remove(wm, worker_id);
                            assert(wc@ == sw.workers[worker_id]);
                        }
                        let ghost sjv = sj@;
                        wc.jobs_done.push(sj);
                        proof {
                            assert(wc@.jobs_done =~= sw.workers[worker_id].jobs_done.push(sjv));
                            assert(wm.remove(worker_id).insert(worker_id, wc) =~= wm.insert(worker_id, wc));
                            lemma_workers_view_insert(wm, worker_id, wc);
                        }
                        self.workers.insert(worker_id, wc);
                        proof {
                            let t = if in_map_phase { JobType::MapJob } else { JobType::ReduceJob };
                            assert(rep@.parent_job_id == k);
                            assert(self@ == sw.with_assignment(k, t, rep@.job_id, worker_id));
                            lemma_assignment_wf(sw, k, t, rep@.job_id, worker_id);
                        }
                        rep
                    },
                    None => {
                        proof {
                            assert(false);
                        }
                        JobRequestReply {
                            file: String::new(),
                            args: Vec::new(),
                            job_type: 0,
                            app: String::new(),
                            worker_ids: Vec::new(),
                            parent_job_id: 0,
                            job_id: 0,
                            reduce_bucket: 0,
                            valid: 0,
                            n_reduce: 0,
                            output_dir: String::new(),
                        }
                    },
                }
            },
        }
    }

    /// Answers a request of worker `worker_id` for a task at time `now`: with
    /// jobs in the table, a worker that is unknown or dead at `now` is refused
    /// (`None`, nothing changed); otherwise the request is served as
    /// [`Coordinator::job_request_at`] does.
    pub fn serve_request_at(&mut self, worker_id: u32, now: u128) -> (r: Option<JobRequestReply>)
        requires
            old(self)@.wf(),
        ensures
            final(self)@.wf(),
            old(self)@.answers(worker_id, now, final(self)@, opt_reply_view(r)),
    {
        let allowed = self.jobs.is_empty() || match self.workers.get(&worker_id) {
            Some(w) => !worker_dead_at(w, now),
            None => false,
        };
        if allowed {
            let rep = self.job_request_at(worker_id, now);
            Some(rep)
        } else {
            None
        }
    }

    /// Answers a request of worker `worker_id` for a task at the current time,
    /// as [`Coordinator::serve_request_at`] does at that time, which is no
    /// earlier than any recorded heartbeat.
    pub fn job_request(&mut self, worker_id: u32) -> (r: Option<JobRequestReply>)
        requires
            old(self)@.wf(),
        ensures
            final(self)@.wf(),
            exists|now: u128| #[trigger] old(self)@.answers(worker_id, now, final(self)@, opt_reply_view(r)),
            exists|now: u128|
                #[trigger] old(self)@.answers(worker_id, now, final(self)@, opt_reply_view(r)) && old(
                    self,
                )@.not_before_heartbeats(now),
            !old(self)@.jobs.is_empty() && !old(self)@.workers.contains_key(worker_id) ==> r is None,
    {
        let now = self.current_time();
        let r = self.serve_request_at(worker_id, now);
        assert(old(self)@.answers(worker_id, now, self@, opt_reply_view(r)));
        assert(old(self)@.not_before_heartbeats(now));
        r
    }

    /// Handles a report of worker `id` that it could not fetch the map output
    /// for reduce task `sub_job_id` of job `parent_job_id`: when that task is
    /// recorded for the worker, it is taken back so that it is handed out again.
    pub fn connect_error(&mut self, id: u32, parent_job_id: u32, sub_job_id: u32)
        requires
            old(self)@.wf(),
            old(self)@.workers.contains_key(id),
            old(self)@.records_task(id, parent_job_id, sub_job_id) ==> old(
                self,
            )@.jobs[parent_job_id].reduce_jobs.contains_key(sub_job_id),
        ensures
            final(self)@ == old(self)@.with_connect_error(id, parent_job_id, sub_job_id),
            final(self)@.wf(),
    {
        let me = self.workers.get(&id).unwrap();
        let ghost es = self@.workers[id].jobs_done;
        assert(me@.jobs_done == es);
        let mut found = false;
        let mut j: usize = 0;
        while j < me.jobs_done.len()
            invariant
                0 <= j <= me.jobs_done@.len(),
                me@.jobs_done == es,
                found <==> exists|m: int|
                    0 <= m < j && (#[trigger] es[m]).parent_job_id == parent_job_id && es[m].id == sub_job_id,
            decreases me.jobs_done@.len() - j,
        {
            assert(es[j as int] == me.jobs_done@[j as int]@);
            if me.jobs_done[j].parent_job_id == parent_job_id && me.jobs_done[j].id == sub_job_id {
                found = true;
            }
            j = j + 1;
        }
        assert(found == self@.records_task(id, parent_job_id, sub_job_id));
        if found {
            proof {
                let m = choose|m: int|
                    0 <= m < es.len() && (#[trigger] es[m]).parent_job_id == parent_job_id && es[m].id
                        == sub_job_id;
                assert(self@.resolves(es[m]));
            }
            let ghost jm = self.jobs@;
            let mut job = self.jobs.remove(&parent_job_id).unwrap();
            proof {
                lemma_jobs_view_remove(jm, parent_job_id);
                assert(job@ == old(self)@.jobs[parent_job_id]);
            }
            job.unassign_reduce(sub_job_id);
            proof {
                assert(jm.remove(parent_job_id).insert(parent_job_id, job) =~= jm.insert(parent_job_id, job));
                lemma_jobs_view_insert(jm, parent_job_id, job);
            }
            self.jobs.insert(parent_job_id, job);
            proof {
                assert(self@.jobs == old(self)@.jobs.insert(parent_job_id, job@));
                assert forall|k: u32| #[trigger] self@.jobs.contains_key(k) implies {
                    &&& 1 <= k <= self@.job_cnt
                    &&& self@.jobs[k].job_id == k
                    &&& self@.jobs[k].wf()
                } by {
                    if k != parent_job_id {
                        assert(old(self)@.jobs.contains_key(k));
                    }
                }
                assert(tables_grow(old(self)@, self@));
                lemma_workers_resolve(old(self)@, self@);
                assert(self@.workers == old(self)@.workers);
            }
        }
    }

    /// The last job id handed out (0 before the first).
    pub fn last_job_id(&self) -> (r: u32)
        ensures
            r == self@.job_cnt,
    {
        self.job_cnt
    }

    /// The last worker id handed out (0 before the first).
    pub fn last_worker_id(&self) -> (r: u32)
        ensures
            r == self@.curr_id,
    {
        self.curr_id
    }

    /// Job `job_id`, if submitted.
    pub fn job(&self, job_id: u32) -> (r: Option<&Job>)
        ensures
            match r {
                Some(j) => self@.jobs.contains_key(job_id) && j@ == self@.jobs[job_id],
                None => !self@.jobs.contains_key(job_id),
            },
    {
        self.jobs.get(&job_id)
    }

    /// Worker `worker_id`, if registered and not dropped as dead.
    pub fn worker(&self, worker_id: u32) -> (r: Option<&WC>)
        ensures
            match r {
                Some(w) => self@.workers.contains_key(worker_id) && w@ == self@.workers[worker_id],
                None => !self@.workers.contains_key(worker_id),
            },
    {
        self.workers.get(&worker_id)
    }

    /// Marks job `parent_job_id` as failed and records the error message.
    pub fn job_failure(&mut self, parent_job_id: u32, error: String)
        requires
            old(self)@.wf(),
            old(self)@.jobs.contains_key(parent_job_id),
        ensures
            final(self)@ == old(self)@.with_job(old(self)@.jobs[parent_job_id].failed_with(error@)),
            final(self)@.wf(),
    {
        let mut job = self.jobs.remove(&parent_job_id).unwrap();
        job.set_failed(true);
        job.error_arr.push(error);
        proof {
            assert(job@.errors =~= old(self)@.jobs[parent_job_id].errors.push(error@));
            assert(job@ == old(self)@.jobs[parent_job_id].failed_with(error@));
            assert(job@.map_jobs == old(self)@.jobs[parent_job_id].map_jobs);
            assert(job@.wf());
            assert(job@.job_id == parent_job_id);
            assert(old(self).jobs@.remove(parent_job_id).insert(parent_job_id, job)
                =~= old(self).jobs@.insert(parent_job_id, job));
            lemma_jobs_view_insert(old(self).jobs@, parent_job_id, job);
        }
        self.jobs.insert(parent_job_id, job);
        proof {
            assert(self@.jobs == old(self)@.jobs.insert(parent_job_id, job@));
            assert forall|k: u32| #[trigger] self@.jobs.contains_key(k) implies {
                &&& 1 <= k <= self@.job_cnt
                &&& self@.jobs[k].job_id == k
                &&& self@.jobs[k].wf()
            } by {
                if k != parent_job_id {
                    assert(old(self)@.jobs.contains_key(k));
                }
            }
            assert(tables_grow(old(self)@, self@));
            lemma_workers_resolve(old(self)@, self@);
            assert(self@.workers == old(self)@.workers);
            assert(self@.curr_id == old(self)@.curr_id);
            assert(self@.job_cnt == old(self)@.job_cnt);
        }
    }

    /// Records that worker `worker_id` completed task `sub_job_id` of job
    /// `job_id`: a map task when `job_type` is 0, a reduce task otherwise, in
    /// which case the job's completion flag is recomputed.
    pub fn job_done(&mut self, worker_id: u32, job_id: u32, sub_job_id: u32, job_type: u32)
        requires
            old(self)@.wf(),
            old(self)@.jobs.contains_key(job_id),
            old(self)@.workers.contains_key(worker_id),
        ensures
            final(self)@ == old(self)@.with_done_report(job_id, sub_job_id, job_type),
            final(self)@.wf(),
    {
        let mut job = self.jobs.remove(&job_id).unwrap();
        if job_type == 0 {
            job.map_job_done(sub_job_id);
        } else {
            job.reduce_job_done(sub_job_id);
            job.all_done();
        }
        proof {
            assert(old(self).jobs@.remove(job_id).insert(job_id, job) =~= old(self).jobs@.insert(
                job_id,
                job,
            ));
            lemma_jobs_view_insert(old(self).jobs@, job_id, job);
        }
        self.jobs.insert(job_id, job);
        proof {
            assert(tables_grow(old(self)@, self@));
            lemma_workers_resolve(old(self)@, self@);
        }
    }

    /// The status of job `job_id`: whether it is done, whether it failed, and
    /// the errors reported for it; an error when there is no such job.
    pub fn poll_job(&self, job_id: u32) -> (r: Result<PollJobReply, CoordinatorError>)
        ensures
            match r {
                Ok(p) => self@.poll(job_id) == Ok::<PollView, CoordinatorError>(p@),
                Err(e) => self@.poll(job_id) == Err::<PollView, CoordinatorError>(e),
            },
    {
        match self.jobs.get(&job_id) {
            Some(j) => {
                let r = PollJobReply { done: j.done, failed: j.failed, errors: clone_strings(&j.error_arr) };
                Ok(r)
            },
            None => Err(CoordinatorError::JobNotFound),
        }
    }
}

} // verus!
