use map_reduce::coordinator::{
    dead_worker, get_time, update_time, worker_dead_at, Coordinator, CoordinatorError, WC,
};
use map_reduce::job::{Job, JobType, SubJob};
use map_reduce::TASK_TIMEOUT_SECS;

const TIMEOUT_MS: u128 = TASK_TIMEOUT_SECS as u128 * 1000;

fn submit(c: &mut Coordinator, files: &[&str], n_reduce: u32) -> u32 {
    c.submit_job(
        files.iter().map(|f| f.to_string()).collect(),
        "/tmp/out".to_string(),
        "wc".to_string(),
        n_reduce,
        vec![0, 1, 2, 3],
        true,
    )
    .expect("known application")
}

#[test]
fn submit_builds_tasks_and_fresh_ids() {
    let mut c = Coordinator::new();
    let id1 = submit(&mut c, &["a.txt", "b.txt"], 3);
    let id2 = submit(&mut c, &["c.txt"], 1);
    assert_eq!(id1, 1);
    assert_eq!(id2, 2);
    let j = c.job(1).unwrap();
    assert_eq!(j.job_id, 1);
    assert_eq!(j.map_jobs.len(), 2);
    assert_eq!(j.reduce_jobs.len(), 3);
    let m1 = j.map_jobs.get(&1).unwrap();
    assert_eq!(m1.file, "a.txt");
    assert_eq!(m1.parent_job_id, 1);
    assert_eq!(m1.type_job, JobType::MapJob);
    assert_eq!(m1.worker_id, 0);
    assert_eq!(m1.app, "wc");
    assert_eq!(m1.args, vec![0, 1, 2, 3]);
    assert_eq!(m1.output_dir, "/tmp/out");
    assert_eq!(m1.n_reduce, 3);
    assert!(!m1.done && !m1.failed);
    assert_eq!(j.map_jobs.get(&2).unwrap().file, "b.txt");
    let r3 = j.reduce_jobs.get(&3).unwrap();
    assert_eq!(r3.file, "");
    assert_eq!(r3.type_job, JobType::ReduceJob);
    assert!(j.reduce_jobs.get(&4).is_none());
}

#[test]
fn unknown_app_is_refused() {
    let mut c = Coordinator::new();
    let r = c.submit_job(vec!["a".to_string()], "o".to_string(), "nope".to_string(), 1, vec![], false);
    assert_eq!(r, Err(CoordinatorError::AppNotFound));
    assert!(c.job(1).is_none());
    // the refused request used no id
    assert_eq!(submit(&mut c, &["a"], 1), 1);
}

#[test]
fn poll_reports_status() {
    let mut c = Coordinator::new();
    assert!(matches!(c.poll_job(1), Err(CoordinatorError::JobNotFound)));
    let id = submit(&mut c, &["a"], 1);
    let p = c.poll_job(id).unwrap();
    assert!(!p.done && !p.failed && p.errors.is_empty());
    c.job_failure(id, "boom".to_string());
    c.job_failure(id, "again".to_string());
    let p = c.poll_job(id).unwrap();
    assert!(p.failed);
    assert!(!p.done);
    assert_eq!(p.errors, vec!["boom".to_string(), "again".to_string()]);
}

#[test]
fn workers_get_increasing_ids() {
    let mut c = Coordinator::new();
    assert_eq!(c.add_worker_at(100), 1);
    assert_eq!(c.add_worker_at(200), 2);
    assert_eq!(c.add_worker(), 3);
    let w = c.worker(2).unwrap();
    assert_eq!(w.worker_id, 2);
    assert_eq!(w.hb_t, 200);
    assert!(w.jobs_done.is_empty());
    assert!(c.worker(4).is_none());
}

#[test]
fn heartbeat_updates_time() {
    let mut c = Coordinator::new();
    let w = c.add_worker_at(100);
    c.heart_beat_at(w, 900);
    assert_eq!(c.worker(w).unwrap().hb_t, 900);
    c.heart_beat_at(77, 900); // unknown worker: nothing happens
    assert!(c.worker(77).is_none());
    c.heart_beat(w);
    assert!(c.worker(w).unwrap().hb_t >= 900);
}

#[test]
fn idle_without_jobs() {
    let mut c = Coordinator::new();
    let rep = c.job_request_at(42, 1000);
    assert_eq!(rep.valid, 0);
    assert_eq!(rep.job_id, 0);
    assert!(rep.file.is_empty());
}

#[test]
fn full_job_lifecycle() {
    let mut c = Coordinator::new();
    let w = c.add_worker_at(1000);
    let id = submit(&mut c, &["a.txt", "b.txt"], 2);

    let r1 = c.job_request_at(w, 1000);
    assert_eq!((r1.valid, r1.job_type, r1.parent_job_id), (1, 0, id));
    let r2 = c.job_request_at(w, 1000);
    assert_eq!((r2.valid, r2.job_type), (1, 0));
    let mut files = vec![r1.file.clone(), r2.file.clone()];
    files.sort();
    assert_eq!(files, vec!["a.txt".to_string(), "b.txt".to_string()]);
    // both map tasks are out and not done: no reduce task yet
    assert_eq!(c.job_request_at(w, 1000).valid, 0);
    assert_eq!(c.worker(w).unwrap().jobs_done.len(), 2);

    c.job_done(w, id, r1.job_id, 0);
    assert_eq!(c.job_request_at(w, 1000).valid, 0);
    c.job_done(w, id, r2.job_id, 0);

    let r3 = c.job_request_at(w, 1000);
    assert_eq!((r3.valid, r3.job_type, r3.parent_job_id), (1, 1, id));
    assert_eq!(r3.worker_ids, vec![w, w]);
    assert_eq!(r3.reduce_bucket, r3.job_id);
    assert_eq!(r3.file, "");
    let r4 = c.job_request_at(w, 1000);
    assert_eq!(r4.job_type, 1);
    assert_ne!(r3.job_id, r4.job_id);
    assert_eq!(c.job_request_at(w, 1000).valid, 0);

    c.job_done(w, id, r3.job_id, 1);
    assert!(!c.poll_job(id).unwrap().done);
    c.job_done(w, id, r4.job_id, 1);
    assert!(c.poll_job(id).unwrap().done);
    assert_eq!(c.job_request_at(w, 1000).valid, 0);
}

#[test]
fn earlier_job_served_first() {
    let mut c = Coordinator::new();
    let w = c.add_worker_at(0);
    let first = submit(&mut c, &["a"], 1);
    let second = submit(&mut c, &["b"], 1);
    assert_eq!(c.job_request_at(w, 0).parent_job_id, first);
    // the first job has nothing left to hand out: the second one is served
    assert_eq!(c.job_request_at(w, 0).parent_job_id, second);
}

#[test]
fn failed_job_is_skipped() {
    let mut c = Coordinator::new();
    let w = c.add_worker_at(0);
    let first = submit(&mut c, &["a"], 1);
    let second = submit(&mut c, &["b"], 1);
    c.job_failure(first, "bad".to_string());
    let r = c.job_request_at(w, 0);
    assert_eq!(r.parent_job_id, second);
}

#[test]
fn dead_worker_tasks_are_reassigned() {
    let mut c = Coordinator::new();
    let w1 = c.add_worker_at(1000);
    let id = submit(&mut c, &["a.txt"], 1);
    let r = c.job_request_at(w1, 1000);
    assert_eq!(r.valid, 1);
    c.job_done(w1, id, r.job_id, 0);
    let w2 = c.add_worker_at(1000 + TIMEOUT_MS);
    // w1 is silent for the whole timeout: its map output is lost with it
    let r2 = c.job_request_at(w2, 1000 + TIMEOUT_MS);
    assert!(c.worker(w1).is_none());
    assert_eq!((r2.valid, r2.job_type, r2.job_id), (1, 0, r.job_id));
    assert_eq!(r2.file, "a.txt");
    let m = c.job(id).unwrap().map_jobs.get(&1).unwrap();
    assert_eq!(m.worker_id, w2);
    assert!(!m.done);
}

#[test]
fn live_worker_keeps_its_tasks() {
    let mut c = Coordinator::new();
    let w1 = c.add_worker_at(1000);
    let _id = submit(&mut c, &["a.txt"], 1);
    c.job_request_at(w1, 1000);
    let w2 = c.add_worker_at(1000);
    // just under the timeout: w1 is still alive
    let r = c.job_request_at(w2, 1000 + TIMEOUT_MS - 1);
    assert_eq!(r.valid, 0);
    assert!(c.worker(w1).is_some());
}

#[test]
fn unknown_worker_request_refused() {
    let mut c = Coordinator::new();
    submit(&mut c, &["a"], 1);
    assert!(c.job_request(99).is_none());
    // nothing was handed out
    assert_eq!(c.job(1).unwrap().map_jobs.get(&1).unwrap().worker_id, 0);
    let w = c.add_worker();
    let r = c.job_request(w).expect("a live worker is served");
    assert_eq!(r.valid, 1);
}

#[test]
fn connect_error_frees_reduce_task() {
    let mut c = Coordinator::new();
    let w = c.add_worker_at(0);
    let id = submit(&mut c, &["a"], 1);
    let m = c.job_request_at(w, 0);
    c.job_done(w, id, m.job_id, 0);
    let r = c.job_request_at(w, 0);
    assert_eq!(r.job_type, 1);
    assert_eq!(c.job_request_at(w, 0).valid, 0);
    c.connect_error(w, id, r.job_id);
    assert_eq!(c.job(id).unwrap().reduce_jobs.get(&r.job_id).unwrap().worker_id, 0);
    let again = c.job_request_at(w, 0);
    assert_eq!((again.valid, again.job_type, again.job_id), (1, 1, r.job_id));
    // a report for a task not recorded for the worker changes nothing
    let other = c.add_worker_at(0);
    c.connect_error(other, id, r.job_id);
    assert_eq!(c.job(id).unwrap().reduce_jobs.get(&r.job_id).unwrap().worker_id, w);
}

#[test]
fn job_ids_from_counter() {
    let mut c = Coordinator::new();
    assert_eq!(c.get_new_job_id(), 1);
    assert_eq!(c.get_new_job_id(), 2);
    let mut j = Job::new(2);
    j.add_job(
        SubJob {
            id: 1,
            parent_job_id: 2,
            file: "f".to_string(),
            worker_id: 0,
            type_job: JobType::MapJob,
            app: "wc".to_string(),
            n_reduce: 1,
            args: vec![],
            done: false,
            failed: false,
            output_dir: "o".to_string(),
        },
        JobType::MapJob,
    );
    c.add_job(j);
    assert_eq!(c.job(2).unwrap().map_jobs.len(), 1);
    assert_eq!(submit(&mut c, &["x"], 1), 3);
}

#[test]
fn clock_and_liveness() {
    let t = get_time();
    assert!(t > 0);
    let mut w = WC { worker_id: 1, hb_t: 0, jobs_done: Vec::new() };
    assert!(dead_worker(&w));
    update_time(&mut w);
    assert!(w.hb_t >= t);
    assert!(!dead_worker(&w));
    w.update(5000);
    assert_eq!(w.hb_t, 5000);
    assert!(!worker_dead_at(&w, 5000 + TIMEOUT_MS - 1));
    assert!(worker_dead_at(&w, 5000 + TIMEOUT_MS));
    // a clock that reads before the heartbeat does not make it dead
    assert!(!worker_dead_at(&w, 10));
}

#[test]
fn default_is_empty() {
    let c = Coordinator::default();
    assert_eq!(c.last_job_id(), 0);
    assert_eq!(c.last_worker_id(), 0);
    assert!(c.job(1).is_none());
    assert!(c.worker(1).is_none());
}

#[test]
fn job_without_reduce_tasks_is_never_marked_done() {
    let mut c = Coordinator::new();
    let w = c.add_worker_at(0);
    let id = submit(&mut c, &["a"], 0);
    let r = c.job_request_at(w, 0);
    c.job_done(w, id, r.job_id, 0);
    // only a reduce report recomputes the completion flag
    assert!(!c.poll_job(id).unwrap().done);
    assert_eq!(c.job_request_at(w, 0).valid, 0);
}

#[test]
fn job_without_input_files_goes_straight_to_reduce() {
    let mut c = Coordinator::new();
    let w = c.add_worker_at(0);
    let id = submit(&mut c, &[], 1);
    let r = c.job_request_at(w, 0);
    assert_eq!((r.valid, r.job_type, r.parent_job_id), (1, 1, id));
    assert!(r.worker_ids.is_empty());
}

#[test]
fn serve_request_refuses_unknown_and_dead() {
    let mut c = Coordinator::new();
    // no jobs: anyone is answered, with no task
    let r = c.serve_request_at(9, 0).expect("answered");
    assert_eq!(r.valid, 0);
    let w = c.add_worker_at(1000);
    submit(&mut c, &["a"], 1);
    assert!(c.serve_request_at(9, 1000).is_none());
    assert!(c.serve_request_at(w, 1000 + TIMEOUT_MS).is_none());
    // a refusal changes nothing: the worker is still registered
    assert!(c.worker(w).is_some());
    let r = c.serve_request_at(w, 1000 + TIMEOUT_MS - 1).expect("a live worker is served");
    assert_eq!((r.valid, r.job_type), (1, 0));
}

#[test]
fn add_job_replaces() {
    let mut c = Coordinator::new();
    submit(&mut c, &["a", "b"], 1);
    c.add_job(Job::new(1));
    assert!(c.job(1).unwrap().map_jobs.is_empty());
}

#[test]
fn job_ids_unique_with_calls_between() {
    let mut c = Coordinator::new();
    let a = submit(&mut c, &["a.txt"], 1);
    let w = c.add_worker_at(0);
    let r = c.job_request_at(w, 0);
    c.job_done(w, a, r.job_id, 0);
    c.heart_beat_at(w, 10);
    c.job_failure(a, "late".to_string());
    let (failed, errors, map_done) = {
        let j = c.job(a).unwrap();
        (j.failed, j.error_arr.clone(), j.map_jobs.get(&1).unwrap().done)
    };
    let workers_before = c.worker(w).unwrap().jobs_done.len();
    let b = submit(&mut c, &["b.txt"], 2);
    assert!(1 <= a && a < b);
    let after = c.job(a).unwrap();
    assert_eq!(after.job_id, a);
    assert!(failed && map_done);
    assert_eq!(after.failed, failed);
    assert_eq!(after.error_arr, errors);
    assert_eq!(after.map_jobs.get(&1).unwrap().done, map_done);
    assert_eq!(c.worker(w).unwrap().jobs_done.len(), workers_before);
    assert_eq!(c.worker(w).unwrap().hb_t, 10);
}
