use map_reduce::job::{Job, JobType, SubJob};

fn task(id: u32, parent: u32, t: JobType, file: &str) -> SubJob {
    SubJob {
        id,
        parent_job_id: parent,
        file: file.to_string(),
        worker_id: 0,
        type_job: t,
        app: "wc".to_string(),
        n_reduce: 2,
        args: vec![7, 8],
        done: false,
        failed: false,
        output_dir: "/tmp/out".to_string(),
    }
}

#[test]
fn new_job_is_empty() {
    let j = Job::new(4);
    assert_eq!(j.job_id, 4);
    assert!(j.map_jobs.is_empty());
    assert!(j.reduce_jobs.is_empty());
    assert!(!j.done);
    assert!(!j.failed);
    assert!(j.error_arr.is_empty());
    // no tasks: everything is vacuously done
    assert!(j.all_map_done());
    assert!(j.all_reduce_done());
}

#[test]
fn add_job_files_by_kind_and_replaces() {
    let mut j = Job::new(1);
    j.add_job(task(1, 1, JobType::MapJob, "a"), JobType::MapJob);
    j.add_job(task(2, 1, JobType::MapJob, "b"), JobType::MapJob);
    j.add_job(task(1, 1, JobType::ReduceJob, ""), JobType::ReduceJob);
    assert_eq!(j.map_jobs.len(), 2);
    assert_eq!(j.reduce_jobs.len(), 1);
    j.add_job(task(2, 1, JobType::MapJob, "c"), JobType::MapJob);
    assert_eq!(j.map_jobs.len(), 2);
    assert_eq!(j.map_jobs.get(&2).unwrap().file, "c");
}

#[test]
fn marking_tasks_done() {
    let mut j = Job::new(1);
    j.add_job(task(1, 1, JobType::MapJob, "a"), JobType::MapJob);
    j.add_job(task(2, 1, JobType::MapJob, "b"), JobType::MapJob);
    j.add_job(task(1, 1, JobType::ReduceJob, ""), JobType::ReduceJob);
    assert!(!j.all_map_done());
    j.map_job_done(1);
    assert!(!j.all_map_done());
    j.map_job_done(9); // unknown: no effect
    assert_eq!(j.map_jobs.len(), 2);
    j.map_job_done(2);
    assert!(j.all_map_done());
    assert!(!j.all_reduce_done());
    assert!(!j.all_done());
    assert!(!j.done);
    j.reduce_job_done(1);
    assert!(j.all_reduce_done());
    assert!(j.all_done());
    assert!(j.done);
}

#[test]
fn set_flags() {
    let mut j = Job::new(3);
    j.set_done(true);
    assert!(j.done);
    j.set_done(false);
    assert!(!j.done);
    j.set_failed(true);
    assert!(j.failed);
}

#[test]
fn assign_map_then_none() {
    let mut j = Job::new(5);
    j.add_job(task(1, 5, JobType::MapJob, "in.txt"), JobType::MapJob);
    let (rep, parent, sj) = j.assign_and_ret_map_job(3).expect("a pending map task");
    assert_eq!(parent, 5);
    assert_eq!(rep.file, "in.txt");
    assert_eq!(rep.args, vec![7, 8]);
    assert_eq!(rep.job_type, 0);
    assert_eq!(rep.app, "wc");
    assert!(rep.worker_ids.is_empty());
    assert_eq!(rep.parent_job_id, 5);
    assert_eq!(rep.job_id, 1);
    assert_eq!(rep.reduce_bucket, 0);
    assert_eq!(rep.valid, 1);
    assert_eq!(rep.n_reduce, 2);
    assert_eq!(rep.output_dir, "/tmp/out");
    assert_eq!(sj.worker_id, 3);
    assert_eq!(j.map_jobs.get(&1).unwrap().worker_id, 3);
    // the only task is handed out now
    assert!(j.assign_and_ret_map_job(4).is_none());
}

#[test]
fn assign_reduce_lists_map_workers() {
    let mut j = Job::new(2);
    let mut m1 = task(1, 2, JobType::MapJob, "a");
    m1.done = true;
    m1.worker_id = 7;
    let mut m2 = task(2, 2, JobType::MapJob, "b");
    m2.done = true;
    m2.worker_id = 9;
    j.add_job(m1, JobType::MapJob);
    j.add_job(m2, JobType::MapJob);
    j.add_job(task(1, 2, JobType::ReduceJob, ""), JobType::ReduceJob);
    let (rep, parent, sj) = j.assign_and_ret_reduce_job(4).expect("a pending reduce task");
    assert_eq!(parent, 2);
    assert_eq!(rep.job_type, 1);
    assert_eq!(rep.file, "");
    assert_eq!(rep.reduce_bucket, 1);
    assert_eq!(rep.job_id, 1);
    let mut ws = rep.worker_ids.clone();
    ws.sort();
    assert_eq!(ws, vec![7, 9]);
    assert_eq!(sj.worker_id, 4);
    assert!(j.assign_and_ret_reduce_job(4).is_none());
}

#[test]
fn has_work_follows_phase() {
    let mut j = Job::new(1);
    j.add_job(task(1, 1, JobType::MapJob, "a"), JobType::MapJob);
    j.add_job(task(1, 1, JobType::ReduceJob, ""), JobType::ReduceJob);
    assert!(j.has_work());
    j.assign_and_ret_map_job(1).unwrap();
    // map task handed out but not done: the reduce task must wait
    assert!(!j.has_work());
    j.map_job_done(1);
    assert!(j.has_work());
    j.set_failed(true);
    assert!(!j.has_work());
}

#[test]
fn take_back_and_unassign() {
    let mut j = Job::new(1);
    j.add_job(task(1, 1, JobType::MapJob, "a"), JobType::MapJob);
    j.add_job(task(1, 1, JobType::ReduceJob, ""), JobType::ReduceJob);
    j.assign_and_ret_map_job(6).unwrap();
    j.map_job_done(1);
    j.take_back(1, JobType::MapJob);
    let m = j.map_jobs.get(&1).unwrap();
    assert!(!m.done);
    assert_eq!(m.worker_id, 0);
    j.map_job_done(1);
    j.assign_and_ret_reduce_job(6).unwrap();
    j.reduce_job_done(1);
    // a completed reduce task stays with its worker
    j.take_back(1, JobType::ReduceJob);
    assert_eq!(j.reduce_jobs.get(&1).unwrap().worker_id, 6);
    j.unassign_reduce(1);
    assert_eq!(j.reduce_jobs.get(&1).unwrap().worker_id, 0);
}
