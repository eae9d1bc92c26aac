//! Properties of the coordinator and the worker that span several operations.

use vstd::prelude::*;

use crate::coordinator::{dead_at, timeout_millis, CoordinatorError, CoordinatorView, Operation, PollView};
use crate::job::{JobType, JobView, ReplyView, SubJobView};
use crate::worker::{
    add_to_groups, bucket_items, bucket_of, filed, group_of, grouped, has_group, is_worker_step, MapOutputView,
    WorkerEventView, WorkerStepView,
};

verus! {

/// A submitted job is stored under a fresh id, greater than every job id in use.
pub proof fn submit_uses_fresh_id(
    c: CoordinatorView,
    files: Seq<Seq<char>>,
    output_dir: Seq<char>,
    app: Seq<char>,
    n_reduce: u32,
    args: Seq<u8>,
)
    requires
        c.wf(),
        c.job_cnt < u32::MAX,
    ensures
        !c.jobs.contains_key((c.job_cnt + 1) as u32),
        forall|k: u32| #[trigger] c.jobs.contains_key(k) ==> k < c.job_cnt + 1,
        c.with_submitted(files, output_dir, app, n_reduce, args).jobs.contains_key((c.job_cnt + 1) as u32),
        c.with_submitted(files, output_dir, app, n_reduce, args).job_cnt == c.job_cnt + 1,
{
}

/// A job that polls as done has every map task and every reduce task completed.
pub proof fn done_means_all_tasks_done(c: CoordinatorView, k: u32)
    requires
        c.wf(),
        c.poll(k) matches Ok(v) && v.done,
    ensures
        c.jobs[k].all_map_done(),
        c.jobs[k].all_reduce_done(),
{
}

/// Polling a job right after it is submitted finds it neither done nor failed,
/// with no errors.
pub proof fn poll_after_submit(
    c: CoordinatorView,
    files: Seq<Seq<char>>,
    output_dir: Seq<char>,
    app: Seq<char>,
    n_reduce: u32,
    args: Seq<u8>,
)
    requires
        c.wf(),
        c.job_cnt < u32::MAX,
    ensures
        c.with_submitted(files, output_dir, app, n_reduce, args).poll((c.job_cnt + 1) as u32) == Ok::<
            PollView,
            CoordinatorError,
        >(PollView { done: false, failed: false, errors: Seq::empty() }),
{
}

/// Polling a job right after a failure is reported for it finds it failed,
/// with the reported error last.
pub proof fn poll_after_failure(c: CoordinatorView, p: u32, e: Seq<char>)
    requires
        c.wf(),
        c.jobs.contains_key(p),
    ensures
        ({
            let r = c.with_job(c.jobs[p].failed_with(e)).poll(p);
            &&& r is Ok
            &&& r->Ok_0.failed
            &&& r->Ok_0.errors.last() == e
            &&& r->Ok_0.errors.drop_last() == c.jobs[p].errors
            &&& r->Ok_0.done == c.jobs[p].done
        }),
{
    let r = c.with_job(c.jobs[p].failed_with(e)).poll(p);
    assert(r->Ok_0.errors.drop_last() =~= c.jobs[p].errors);
}

/// A newly registered worker gets a fresh id, greater than every worker id in
/// use, and is alive until the timeout passes.
pub proof fn register_uses_fresh_id(c: CoordinatorView, t: u128, later: u128)
    requires
        c.wf(),
        c.curr_id < u32::MAX,
        t <= later < t + timeout_millis(),
    ensures
        forall|w: u32| #[trigger] c.workers.contains_key(w) ==> w < c.curr_id + 1,
        c.with_new_worker((c.curr_id + 1) as u32, t).may_request((c.curr_id + 1) as u32, later),
{
}

/// A worker that sends a heartbeat at `now` is alive until the timeout passes.
pub proof fn heartbeat_keeps_alive(c: CoordinatorView, w: u32, now: u128, later: u128)
    requires
        c.workers.contains_key(w),
        now <= later < now + timeout_millis(),
    ensures
        c.with_heartbeat(w, now).may_request(w, later),
{
}

/// When a worker is found dead, it is dropped, and every map task recorded for
/// it, of a job that is not done, is pending again, so that another worker
/// runs it; a reduce task recorded for it that has not completed is pending again.
pub proof fn dead_worker_tasks_pending(c: CoordinatorView, now: u128, w: u32, j: int)
    requires
        c.wf(),
        c.workers.contains_key(w),
        dead_at(c.workers[w].hb_t, now),
        0 <= j < c.workers[w].jobs_done.len(),
        !c.jobs[c.workers[w].jobs_done[j].parent_job_id].done,
    ensures
        ({
            let e = c.workers[w].jobs_done[j];
            let job = c.swept(now).jobs[e.parent_job_id];
            &&& !c.swept(now).workers.contains_key(w)
            &&& e.type_job == JobType::MapJob ==> job.map_jobs[e.id].unassigned()
            &&& e.type_job == JobType::ReduceJob && !c.jobs[e.parent_job_id].reduce_jobs[e.id].done
                ==> job.reduce_jobs[e.id].unassigned()
        }),
{
    let e = c.workers[w].jobs_done[j];
    assert(c.resolves(e));
    assert(c.lost_tasks(now).contains(crate::job::task_key(e)));
    let p = e.parent_job_id;
    let job0 = c.jobs[p];
    assert(job0.wf());
    if e.type_job == JobType::MapJob {
        assert(job0.map_jobs[e.id].id == e.id);
    } else {
        assert(job0.reduce_jobs[e.id].id == e.id);
    }
}

/// Sweeping out dead workers leaves done jobs untouched and keeps every live worker.
pub proof fn sweep_keeps_done_jobs_and_live_workers(c: CoordinatorView, now: u128)
    ensures
        forall|k: u32| #[trigger] c.jobs.contains_key(k) && c.jobs[k].done ==> c.swept(now).jobs[k] == c.jobs[k],
        forall|w: u32| #[trigger] c.workers.contains_key(w) && !dead_at(c.workers[w].hb_t, now)
            ==> c.swept(now).workers.contains_key(w) && c.swept(now).workers[w] == c.workers[w],
{
}

/// A task request is served from the job of smallest id that has a pending task:
/// every job of smaller id has none.
pub proof fn earlier_jobs_first(
    c: CoordinatorView,
    w: u32,
    now: u128,
    d: CoordinatorView,
    rep: crate::job::ReplyView,
)
    requires
        c.serves(w, now, d, rep),
        rep.valid == 1,
    ensures
        forall|k: u32| #[trigger] c.swept(now).jobs.contains_key(k) && k < rep.parent_job_id ==> !c.swept(
            now,
        ).jobs[k].has_work(),
{
}

/// A reduce task is handed out only once every map task of its job has
/// completed, and the reply names the worker of each map task; a map task is
/// handed out only while some map task has not completed. Either way the
/// task was pending and is now recorded for the requesting worker.
pub proof fn reduce_after_all_maps(
    c: CoordinatorView,
    w: u32,
    now: u128,
    d: CoordinatorView,
    rep: crate::job::ReplyView,
)
    requires
        c.serves(w, now, d, rep),
        rep.valid == 1,
    ensures
        ({
            let job = c.swept(now).jobs[rep.parent_job_id];
            &&& rep.job_type == 1 ==> job.all_map_done() && crate::job::lists_map_workers(
                rep.worker_ids,
                job.map_jobs,
            ) && job.reduce_jobs[rep.job_id].unassigned()
                && d.jobs[rep.parent_job_id].reduce_jobs[rep.job_id].worker_id == w
            &&& rep.job_type == 0 ==> !job.all_map_done() && job.map_jobs[rep.job_id].unassigned()
                && d.jobs[rep.parent_job_id].map_jobs[rep.job_id].worker_id == w
            &&& d.workers[w].jobs_done.last().id == rep.job_id
            &&& d.workers[w].jobs_done.last().parent_job_id == rep.parent_job_id
        }),
{
    let sw = c.swept(now);
    if c.jobs.is_empty() {
    } else if sw.some_job_has_work() {
        let k = rep.parent_job_id;
        let job = sw.jobs[k];
        if !job.all_map_done() {
            assert(d == sw.with_assignment(k, JobType::MapJob, rep.job_id, w));
        } else {
            assert(d == sw.with_assignment(k, JobType::ReduceJob, rep.job_id, w));
        }
    }
}

/// After a worker reports that it could not fetch the input of a reduce task
/// recorded for it, that task is pending again unless it has completed.
pub proof fn connect_error_frees_task(c: CoordinatorView, w: u32, p: u32, i: u32)
    requires
        c.wf(),
        c.workers.contains_key(w),
        c.records_task(w, p, i),
        c.jobs[p].reduce_jobs.contains_key(i),
        !c.jobs[p].reduce_jobs[i].done,
    ensures
        c.with_connect_error(w, p, i).jobs[p].reduce_jobs[i].unassigned(),
{
    let es = c.workers[w].jobs_done;
    let j = choose|j: int| 0 <= j < es.len() && (#[trigger] es[j]).parent_job_id == p && es[j].id == i;
    assert(c.resolves(es[j]));
    assert(c.jobs.contains_key(p));
}

/// With no jobs, or no pending task, a task request hands out nothing.
pub proof fn idle_when_no_work(c: CoordinatorView, w: u32, now: u128, d: CoordinatorView, rep: crate::job::ReplyView)
    requires
        c.serves(w, now, d, rep),
        c.jobs.is_empty() || !c.swept(now).some_job_has_work(),
    ensures
        rep.valid == 0,
{
}

/// Once the last task of a job is reported done, with every other task done,
/// the job is done.
pub proof fn job_done_when_all_tasks_done(c: CoordinatorView, p: u32, i: u32)
    requires
        c.wf(),
        c.jobs.contains_key(p),
        c.jobs[p].reduce_jobs.contains_key(i),
        c.jobs[p].all_map_done(),
        forall|k: u32| #[trigger] c.jobs[p].reduce_jobs.contains_key(k) && k != i ==> c.jobs[p].reduce_jobs[k].done,
    ensures
        c.with_done_report(p, i, 1).poll(p) matches Ok(v) && v.done,
{
    let j2 = c.jobs[p].reduce_marked_done(i);
    assert(j2.all_map_done());
    assert(j2.all_reduce_done());
}

/// Filing one key-value pair appends the key, then the value, to the bucket of
/// its key and leaves every other bucket as it was.
pub proof fn file_appends_to_one_bucket(bs: Map<u32, Seq<Seq<u8>>>, o: MapOutputView, n_reduce: u32, b: u32)
    ensures
        bucket_items(filed(bs, seq![o], n_reduce), b) == if b == bucket_of(o.key_hash, n_reduce) {
            bucket_items(bs, b).push(o.key).push(o.value)
        } else {
            bucket_items(bs, b)
        },
{
    assert(seq![o].drop_last() =~= Seq::<MapOutputView>::empty());
    reveal_with_fuel(filed, 2);
}

/// The number of values over all groups.
pub open spec fn total_values(gs: Seq<(Seq<u8>, Seq<Seq<u8>>)>) -> nat
    decreases gs.len(),
{
    if gs.len() == 0 {
        0
    } else {
        total_values(gs.drop_last()) + gs.last().1.len()
    }
}

proof fn lemma_total_update(gs: Seq<(Seq<u8>, Seq<Seq<u8>>)>, i: int, x: (Seq<u8>, Seq<Seq<u8>>))
    requires
        0 <= i < gs.len(),
    ensures
        total_values(gs.update(i, x)) + gs[i].1.len() == total_values(gs) + x.1.len(),
    decreases gs.len(),
{
    if i == gs.len() - 1 {
        assert(gs.update(i, x).drop_last() =~= gs.drop_last());
    } else {
        lemma_total_update(gs.drop_last(), i, x);
        assert(gs.update(i, x).drop_last() =~= gs.drop_last().update(i, x));
    }
}

/// Adding one value to the groups adds exactly one value.
pub proof fn add_to_groups_adds_one(gs: Seq<(Seq<u8>, Seq<Seq<u8>>)>, k: Seq<u8>, v: Seq<u8>)
    ensures
        total_values(add_to_groups(gs, k, v)) == total_values(gs) + 1,
{
    if has_group(gs, k) {
        let i = group_of(gs, k);
        lemma_total_update(gs, i, (k, gs[i].1.push(v)));
    } else {
        let g2 = gs.push((k, seq![v]));
        assert(g2.drop_last() =~= gs);
        assert(g2.last().1.len() == 1);
        assert(total_values(g2) == total_values(gs) + 1);
    }
}

/// Grouping the fetched pairs by key loses and duplicates no value: the groups
/// gain exactly one value per pair.
pub proof fn grouping_keeps_every_value(gs: Seq<(Seq<u8>, Seq<Seq<u8>>)>, items: Seq<Seq<u8>>)
    requires
        items.len() % 2 == 0,
    ensures
        total_values(grouped(gs, items)) == total_values(gs) + items.len() / 2,
    decreases items.len(),
{
    if items.len() >= 2 {
        let prefix = items.subrange(0, items.len() - 2);
        grouping_keeps_every_value(gs, prefix);
        add_to_groups_adds_one(grouped(gs, prefix), items[items.len() - 2], items[items.len() - 1]);
    }
}

/// No operation lowers the count of job ids handed out or drops a job.
pub proof fn operation_keeps_jobs(c: CoordinatorView, op: Operation, d: CoordinatorView)
    requires
        c.performs(op, d),
    ensures
        c.job_cnt <= d.job_cnt,
        forall|k: u32| #[trigger] c.jobs.contains_key(k) ==> d.jobs.contains_key(k),
{
    match op {
        Operation::Request { w, now, reply } => {
            if !c.jobs.is_empty() && reply is Some {
                let sw = c.swept(now);
                assert(sw.jobs.dom() =~= c.jobs.dom());
            }
        },
        _ => {},
    }
}

/// Along a run of operations the count of job ids handed out never drops, and
/// no job disappears.
pub proof fn run_keeps_jobs(ops: Seq<Operation>, states: Seq<CoordinatorView>, k: int)
    requires
        states.len() == ops.len() + 1,
        forall|i: int| #![trigger ops[i]] 0 <= i < ops.len() ==> states[i].performs(ops[i], states[i + 1]),
        0 <= k < states.len(),
    ensures
        states[0].job_cnt <= states[k].job_cnt,
        forall|x: u32| #[trigger] states[0].jobs.contains_key(x) ==> states[k].jobs.contains_key(x),
    decreases k,
{
    if k > 0 {
        run_keeps_jobs(ops, states, k - 1);
        operation_keeps_jobs(states[k - 1], ops[k - 1], states[k]);
    }
}

/// Job ids are unique: when a job is submitted, then any run of operations
/// follows, and then another job is submitted, the second job gets a greater id
/// than the first; the first job is still stored, and the second submission
/// leaves it as it then stands; neither submission touches the workers.
pub proof fn job_ids_unique_across_submissions(
    c: CoordinatorView,
    first: Operation,
    ops: Seq<Operation>,
    states: Seq<CoordinatorView>,
    second: Operation,
    e: CoordinatorView,
)
    requires
        first matches Operation::Submit { app_found, .. } && app_found,
        c.performs(first, states[0]),
        states.len() == ops.len() + 1,
        forall|i: int| #![trigger ops[i]] 0 <= i < ops.len() ==> states[i].performs(ops[i], states[i + 1]),
        second matches Operation::Submit { app_found, .. } && app_found,
        states.last().performs(second, e),
    ensures
        ({
            let d = states.last();
            let a = c.job_cnt + 1;
            let b = d.job_cnt + 1;
            &&& 1 <= a < b
            &&& states[0].jobs.contains_key(a as u32)
            &&& d.jobs.contains_key(a as u32)
            &&& e.jobs.contains_key(b as u32)
            &&& e.jobs[a as u32] == d.jobs[a as u32]
            &&& states[0].workers == c.workers
            &&& e.workers == d.workers
        }),
{
    run_keeps_jobs(ops, states, states.len() - 1);
}

/// Every task request and every report a worker sends carries its own id.
pub proof fn requests_carry_own_id(id: u32, task: ReplyView, ev: WorkerEventView, s: WorkerStepView)
    requires
        is_worker_step(id, task, ev, s),
    ensures
        s matches WorkerStepView::AskForTask { worker_id } ==> worker_id == id,
        s matches WorkerStepView::ReportDone { worker_id, .. } ==> worker_id == id,
        s matches WorkerStepView::ReportConnectError { id: i, .. } ==> i == id,
{
}

/// A reply that is not valid, or names a task that is neither map nor
/// reduce, leads to no report and no fetch: the worker waits, and when ready
/// again it asks for a task under its own id.
pub proof fn invalid_reply_waits(
    id: u32,
    task: ReplyView,
    r: ReplyView,
    s: WorkerStepView,
    next: WorkerStepView,
)
    requires
        r.valid != 1 || (r.job_type != 0 && r.job_type != 1),
        is_worker_step(id, task, WorkerEventView::Reply(r), s),
        is_worker_step(id, r, WorkerEventView::Ready, next),
    ensures
        s == WorkerStepView::Wait,
        next == (WorkerStepView::AskForTask { worker_id: id }),
{
}

/// At a task request answered at a time no earlier than any recorded
/// heartbeat, with jobs in the table, a worker whose last heartbeat lies the
/// timeout or more before another worker's is dropped as dead, and every map
/// task recorded for it, of a job that is not done, is taken from it: it is
/// pending again or handed to the requesting worker.
pub proof fn request_drops_silent_workers(
    c: CoordinatorView,
    w: u32,
    now: u128,
    d: CoordinatorView,
    rep: ReplyView,
    u: u32,
    v: u32,
    j: int,
)
    requires
        c.wf(),
        c.answers(w, now, d, Some(rep)),
        c.not_before_heartbeats(now),
        !c.jobs.is_empty(),
        c.workers.contains_key(u),
        c.workers.contains_key(v),
        c.workers[v].hb_t + timeout_millis() <= c.workers[u].hb_t,
        0 <= j < c.workers[v].jobs_done.len(),
        c.workers[v].jobs_done[j].type_job == JobType::MapJob,
        !c.jobs[c.workers[v].jobs_done[j].parent_job_id].done,
    ensures
        v != w,
        !d.workers.contains_key(v),
        ({
            let e = c.workers[v].jobs_done[j];
            let s = d.jobs[e.parent_job_id].map_jobs[e.id];
            &&& d.jobs[e.parent_job_id].map_jobs.contains_key(e.id)
            &&& !s.done
            &&& s.worker_id == 0 || s.worker_id == w
        }),
{
    assert(dead_at(c.workers[v].hb_t, now));
    dead_worker_tasks_pending(c, now, v, j);
    let e = c.workers[v].jobs_done[j];
    assert(c.resolves(e));
    let sw = c.swept(now);
    assert(sw.jobs.contains_key(e.parent_job_id));
    if sw.some_job_has_work() {
        let k = rep.parent_job_id;
        let job = sw.jobs[k];
        assert(sw.hands_out(k, w, d, rep));
    }
}

/// A heartbeat recorded at a time no earlier than any recorded before keeps
/// the worker alive at least as long as every registered worker, itself as it
/// was included.
pub proof fn heartbeat_outlives_others(c: CoordinatorView, w: u32, t: u128, v: u32, later: u128)
    requires
        c.workers.contains_key(w),
        c.not_before_heartbeats(t),
        c.may_request(v, later),
    ensures
        c.with_heartbeat(w, t).may_request(w, later),
{
    assert(c.workers[v].hb_t <= t);
}

/// A worker registered at a time no earlier than any recorded heartbeat stays
/// alive at least as long as every worker registered before it, which keep
/// their heartbeats.
pub proof fn new_worker_outlives_others(c: CoordinatorView, t: u128, v: u32, later: u128)
    requires
        c.wf(),
        c.curr_id < u32::MAX,
        c.not_before_heartbeats(t),
        c.may_request(v, later),
    ensures
        c.with_new_worker((c.curr_id + 1) as u32, t).may_request((c.curr_id + 1) as u32, later),
        c.with_new_worker((c.curr_id + 1) as u32, t).may_request(v, later),
{
    assert(c.workers[v].hb_t <= t);
}

/// Two tasks agree on everything a submission fixes: ids, kind, input file,
/// application, arguments, number of buckets and output directory.
pub open spec fn same_settings(s1: SubJobView, s2: SubJobView) -> bool {
    &&& s1.id == s2.id
    &&& s1.parent_job_id == s2.parent_job_id
    &&& s1.type_job == s2.type_job
    &&& s1.file == s2.file
    &&& s1.app == s2.app
    &&& s1.args == s2.args
    &&& s1.n_reduce == s2.n_reduce
    &&& s1.output_dir == s2.output_dir
}

/// The tasks of `job` are those of job `id` submitted with these settings:
/// map task `i`, for `1 <= i <= files.len()`, reads `files[i - 1]`; there is one
/// reduce task per bucket `1..=n_reduce`, with no input file; and every task
/// carries the job's id, application, arguments, number of buckets and output
/// directory.
pub open spec fn carries_submission(
    job: JobView,
    id: u32,
    files: Seq<Seq<char>>,
    output_dir: Seq<char>,
    app: Seq<char>,
    n_reduce: u32,
    args: Seq<u8>,
) -> bool {
    &&& forall|i: u32| #[trigger] job.map_jobs.contains_key(i) <==> 1 <= i <= files.len()
    &&& forall|i: u32| #[trigger] job.reduce_jobs.contains_key(i) <==> 1 <= i <= n_reduce
    &&& forall|i: u32| #[trigger] job.map_jobs.contains_key(i) ==> {
        let s = job.map_jobs[i];
        &&& s.id == i
        &&& s.parent_job_id == id
        &&& s.type_job == JobType::MapJob
        &&& s.file == files[i - 1]
        &&& s.app == app
        &&& s.args == args
        &&& s.n_reduce == n_reduce
        &&& s.output_dir == output_dir
    }
    &&& forall|i: u32| #[trigger] job.reduce_jobs.contains_key(i) ==> {
        let s = job.reduce_jobs[i];
        &&& s.id == i
        &&& s.parent_job_id == id
        &&& s.type_job == JobType::ReduceJob
        &&& s.file == Seq::<char>::empty()
        &&& s.app == app
        &&& s.args == args
        &&& s.n_reduce == n_reduce
        &&& s.output_dir == output_dir
    }
}

/// A submitted job is stored under its new id with one pending map task per
/// input file and one pending reduce task per bucket, each carrying the
/// submitted application, arguments, number of buckets and output directory;
/// the job is neither done nor failed and has no errors.
pub proof fn submission_tasks_carry_settings(
    c: CoordinatorView,
    files: Seq<Seq<char>>,
    output_dir: Seq<char>,
    app: Seq<char>,
    n_reduce: u32,
    args: Seq<u8>,
)
    requires
        c.job_cnt < u32::MAX,
    ensures
        ({
            let id = (c.job_cnt + 1) as u32;
            let job = c.with_submitted(files, output_dir, app, n_reduce, args).jobs[id];
            &&& c.with_submitted(files, output_dir, app, n_reduce, args).jobs.contains_key(id)
            &&& carries_submission(job, id, files, output_dir, app, n_reduce, args)
            &&& forall|i: u32| 1 <= i <= n_reduce ==> (#[trigger] job.reduce_jobs[i]).output_dir == output_dir
            &&& forall|i: u32| #[trigger] job.map_jobs.contains_key(i) ==> job.map_jobs[i].unassigned()
                && !job.map_jobs[i].failed
            &&& forall|i: u32| #[trigger] job.reduce_jobs.contains_key(i) ==> job.reduce_jobs[i].unassigned()
                && !job.reduce_jobs[i].failed
            &&& !job.done && !job.failed && job.errors == Seq::<Seq<char>>::empty()
        }),
{
}

/// Replacing a task of `job` by one with the same settings keeps what the
/// job carries of its submission.
proof fn lemma_carries_replace(
    job: JobView,
    id: u32,
    files: Seq<Seq<char>>,
    output_dir: Seq<char>,
    app: Seq<char>,
    n_reduce: u32,
    args: Seq<u8>,
    t: JobType,
    i: u32,
    s: SubJobView,
)
    requires
        carries_submission(job, id, files, output_dir, app, n_reduce, args),
        t == JobType::MapJob ==> job.map_jobs.contains_key(i) && same_settings(job.map_jobs[i], s),
        t != JobType::MapJob ==> job.reduce_jobs.contains_key(i) && same_settings(job.reduce_jobs[i], s),
    ensures
        carries_submission(job.with_sub_job(t, i, s), id, files, output_dir, app, n_reduce, args),
{
}

/// Taking tasks back from dead workers keeps what a job carries of its
/// submission.
proof fn lemma_carries_taken_back(
    job: JobView,
    id: u32,
    files: Seq<Seq<char>>,
    output_dir: Seq<char>,
    app: Seq<char>,
    n_reduce: u32,
    args: Seq<u8>,
    lost: Set<(u32, u32, JobType)>,
)
    requires
        carries_submission(job, id, files, output_dir, app, n_reduce, args),
    ensures
        carries_submission(job.taken_back(lost), id, files, output_dir, app, n_reduce, args),
{
}

/// No operation drops a job or changes what its tasks carry of its submission.
proof fn operation_keeps_submission(
    c: CoordinatorView,
    op: Operation,
    d: CoordinatorView,
    a: u32,
    files: Seq<Seq<char>>,
    output_dir: Seq<char>,
    app: Seq<char>,
    n_reduce: u32,
    args: Seq<u8>,
)
    requires
        c.allows(op),
        c.performs(op, d),
        c.jobs.contains_key(a),
        carries_submission(c.jobs[a], a, files, output_dir, app, n_reduce, args),
    ensures
        d.jobs.contains_key(a),
        carries_submission(d.jobs[a], a, files, output_dir, app, n_reduce, args),
{
    match op {
        Operation::Request { w, now, reply } => {
            if reply is Some {
                let sw = c.swept(now);
                lemma_carries_taken_back(c.jobs[a], a, files, output_dir, app, n_reduce, args, c.lost_tasks(now));
                assert(sw.jobs.contains_key(a));
                assert(carries_submission(sw.jobs[a], a, files, output_dir, app, n_reduce, args));
                if sw.some_job_has_work() {
                    let rep = reply->Some_0;
                    let k = rep.parent_job_id;
                    let job = sw.jobs[k];
                    let i = rep.job_id;
                    assert(sw.hands_out(k, w, d, rep));
                    if k == a {
                        if !job.all_map_done() {
                            lemma_carries_replace(job, a, files, output_dir, app, n_reduce, args, JobType::MapJob, i,
                                job.map_jobs[i].assigned_to(w));
                        } else {
                            lemma_carries_replace(job, a, files, output_dir, app, n_reduce, args,
                                JobType::ReduceJob, i, job.reduce_jobs[i].assigned_to(w));
                        }
                    }
                }
            }
        },
        Operation::ConnectError { w, p, i } => {
            if c.records_task(w, p, i) && p == a {
                lemma_carries_replace(c.jobs[a], a, files, output_dir, app, n_reduce, args, JobType::ReduceJob, i,
                    c.jobs[a].reduce_jobs[i].unassigned_again());
            }
            if c.records_task(w, p, i) {
                let es = c.workers[w].jobs_done;
                let jj = choose|jj: int| 0 <= jj < es.len() && (#[trigger] es[jj]).parent_job_id == p && es[jj].id == i;
                assert(c.resolves(es[jj]));
            }
        },
        Operation::Done { p, i, t } => {
            if p == a {
                let job = c.jobs[a];
                if t == 0 {
                    if job.map_jobs.contains_key(i) {
                        lemma_carries_replace(job, a, files, output_dir, app, n_reduce, args, JobType::MapJob, i,
                            job.map_jobs[i].completed());
                    }
                } else {
                    if job.reduce_jobs.contains_key(i) {
                        lemma_carries_replace(job, a, files, output_dir, app, n_reduce, args, JobType::ReduceJob, i,
                            job.reduce_jobs[i].completed());
                    }
                }
            }
        },
        _ => {},
    }
}

/// Along a run of operations, a job stays stored and its tasks keep what they
/// carry of its submission.
proof fn run_keeps_submission(
    ops: Seq<Operation>,
    states: Seq<CoordinatorView>,
    k: int,
    a: u32,
    files: Seq<Seq<char>>,
    output_dir: Seq<char>,
    app: Seq<char>,
    n_reduce: u32,
    args: Seq<u8>,
)
    requires
        states.len() == ops.len() + 1,
        forall|i: int|
            #![trigger ops[i]]
            0 <= i < ops.len() ==> states[i].allows(ops[i]) && states[i].performs(ops[i], states[i + 1]),
        states[0].jobs.contains_key(a),
        carries_submission(states[0].jobs[a], a, files, output_dir, app, n_reduce, args),
        0 <= k < states.len(),
    ensures
        states[k].jobs.contains_key(a),
        carries_submission(states[k].jobs[a], a, files, output_dir, app, n_reduce, args),
    decreases k,
{
    if k > 0 {
        run_keeps_submission(ops, states, k - 1, a, files, output_dir, app, n_reduce, args);
        operation_keeps_submission(states[k - 1], ops[k - 1], states[k], a, files, output_dir, app, n_reduce, args);
    }
}

/// A task handed out for a submitted job, after any run of operations,
/// carries what the job was submitted with: the application, the arguments,
/// the number of buckets and the output directory; a map task `i` also its
/// input file `files[i - 1]`, and a reduce task its bucket `1..=n_reduce`.
pub proof fn replies_carry_submission(
    c: CoordinatorView,
    files: Seq<Seq<char>>,
    output_dir: Seq<char>,
    app: Seq<char>,
    n_reduce: u32,
    args: Seq<u8>,
    ops: Seq<Operation>,
    states: Seq<CoordinatorView>,
    w: u32,
    now: u128,
    e: CoordinatorView,
    rep: ReplyView,
)
    requires
        c.wf(),
        c.job_cnt < u32::MAX,
        states.len() == ops.len() + 1,
        states[0] == c.with_submitted(files, output_dir, app, n_reduce, args),
        forall|i: int|
            #![trigger ops[i]]
            0 <= i < ops.len() ==> states[i].allows(ops[i]) && states[i].performs(ops[i], states[i + 1]),
        states.last().wf(),
        states.last().answers(w, now, e, Some(rep)),
        rep.valid == 1,
        rep.parent_job_id == c.job_cnt + 1,
    ensures
        rep.app == app,
        rep.args == args,
        rep.n_reduce == n_reduce,
        rep.output_dir == output_dir,
        rep.job_type == 0 ==> 1 <= rep.job_id <= files.len() && rep.file == files[rep.job_id - 1],
        rep.job_type == 1 ==> 1 <= rep.job_id <= n_reduce && rep.reduce_bucket == rep.job_id && rep.file
            == Seq::<char>::empty(),
{
    let a = (c.job_cnt + 1) as u32;
    submission_tasks_carry_settings(c, files, output_dir, app, n_reduce, args);
    run_keeps_submission(ops, states, states.len() - 1, a, files, output_dir, app, n_reduce, args);
    let d = states.last();
    let sw = d.swept(now);
    lemma_carries_taken_back(d.jobs[a], a, files, output_dir, app, n_reduce, args, d.lost_tasks(now));
    assert(sw.jobs.contains_key(a));
    assert(sw.hands_out(a, w, e, rep));
}

} // verus!
