use map_reduce::worker::{
    bucket_index, bytes_eq, get_port, group_pairs, next_action, KeyGroup, MapOutput, Worker, WorkerAction,
};
use map_reduce::INITIAL_WORKER_PORT;

#[test]
fn port_of_worker() {
    assert_eq!(get_port(0), INITIAL_WORKER_PORT);
    assert_eq!(get_port(3), INITIAL_WORKER_PORT + 3);
    assert_ne!(get_port(1), get_port(2));
}

#[test]
fn action_for_reply() {
    assert_eq!(next_action(1, 0), WorkerAction::RunMap);
    assert_eq!(next_action(1, 1), WorkerAction::RunReduce);
    assert_eq!(next_action(0, 0), WorkerAction::Wait);
    assert_eq!(next_action(0, 1), WorkerAction::Wait);
    assert_eq!(next_action(1, 2), WorkerAction::Wait);
}

#[test]
fn buckets_from_one() {
    assert_eq!(bucket_index(0, 5), 1);
    assert_eq!(bucket_index(4, 5), 5);
    assert_eq!(bucket_index(5, 5), 1);
    assert_eq!(bucket_index(17, 5), 3);
    assert_eq!(bucket_index(u32::MAX, 1), 1);
}

fn out(k: &str, v: &str, h: u32) -> MapOutput {
    MapOutput { key: k.as_bytes().to_vec(), value: v.as_bytes().to_vec(), key_hash: h }
}

#[test]
fn filed_output_is_served_per_bucket() {
    let mut w = Worker::with_id(2);
    assert!(!w.has_job(1));
    w.file_map_output(1, 2, &vec![out("a", "1", 0), out("b", "1", 1), out("a", "1", 2)]);
    assert!(w.has_job(1));
    assert_eq!(
        w.map_data(1, 1),
        vec![b"a".to_vec(), b"1".to_vec(), b"a".to_vec(), b"1".to_vec()]
    );
    assert_eq!(w.map_data(1, 2), vec![b"b".to_vec(), b"1".to_vec()]);
    assert!(w.map_data(1, 3).is_empty());
    // a second map task of the same job appends
    w.file_map_output(1, 2, &vec![out("c", "9", 3)]);
    assert_eq!(w.map_data(1, 2), vec![b"b".to_vec(), b"1".to_vec(), b"c".to_vec(), b"9".to_vec()]);
    // a map task with no output still makes the job's table
    w.file_map_output(4, 0, &vec![]);
    assert!(w.has_job(4));
    assert!(w.map_data(4, 1).is_empty());
    assert_eq!(w.id, 2);
}

#[test]
fn pairs_grouped_by_key_in_order() {
    let mut groups: Vec<KeyGroup> = Vec::new();
    let items: Vec<Vec<u8>> = vec![
        b"x".to_vec(),
        b"1".to_vec(),
        b"y".to_vec(),
        b"2".to_vec(),
        b"x".to_vec(),
        b"3".to_vec(),
    ];
    group_pairs(&mut groups, &items);
    assert_eq!(groups.len(), 2);
    assert_eq!(groups[0].key, b"x".to_vec());
    assert_eq!(groups[0].values, vec![b"1".to_vec(), b"3".to_vec()]);
    assert_eq!(groups[1].key, b"y".to_vec());
    assert_eq!(groups[1].values, vec![b"2".to_vec()]);
    // data fetched from a second worker joins the same groups
    group_pairs(&mut groups, &vec![b"y".to_vec(), b"4".to_vec(), b"z".to_vec(), b"5".to_vec()]);
    assert_eq!(groups.len(), 3);
    assert_eq!(groups[1].values, vec![b"2".to_vec(), b"4".to_vec()]);
    assert_eq!(groups[2].key, b"z".to_vec());
    let total: usize = groups.iter().map(|g| g.values.len()).sum();
    assert_eq!(total, 5);
}

#[test]
fn empty_input_groups_nothing() {
    let mut groups: Vec<KeyGroup> = Vec::new();
    group_pairs(&mut groups, &vec![]);
    assert!(groups.is_empty());
}

#[test]
fn byte_equality() {
    assert!(bytes_eq(&b"abc".to_vec(), &b"abc".to_vec()));
    assert!(!bytes_eq(&b"abc".to_vec(), &b"abd".to_vec()));
    assert!(!bytes_eq(&b"ab".to_vec(), &b"abc".to_vec()));
    assert!(bytes_eq(&vec![], &vec![]));
}

use map_reduce::job::JobRequestReply;
use map_reduce::worker::{
    distinct_workers, reduce_output_items, reduce_output_name, worker_step, WorkerEvent, WorkerStep,
};

fn reply(valid: u32, job_type: u32, worker_ids: Vec<u32>) -> JobRequestReply {
    JobRequestReply {
        file: "in.txt".to_string(),
        args: b"-i".to_vec(),
        job_type,
        app: "wc".to_string(),
        worker_ids,
        parent_job_id: 7,
        job_id: 3,
        reduce_bucket: if job_type == 1 { 3 } else { 0 },
        valid,
        n_reduce: 5,
        output_dir: "/tmp/out".to_string(),
    }
}

fn sorted(mut v: Vec<u32>) -> Vec<u32> {
    v.sort();
    v
}

#[test]
fn distinct_workers_each_once() {
    let ws = distinct_workers(&vec![3, 1, 3, 2, 1]);
    assert_eq!(ws.len(), 3);
    assert_eq!(sorted(ws), vec![1, 2, 3]);
    assert_eq!(distinct_workers(&vec![]), Vec::<u32>::new());
    assert_eq!(distinct_workers(&vec![4, 4, 4]), vec![4]);
}

fn group(k: &str, vs: &[&str]) -> KeyGroup {
    KeyGroup { key: k.as_bytes().to_vec(), values: vs.iter().map(|v| v.as_bytes().to_vec()).collect() }
}

#[test]
fn output_items_pair_keys_with_results() {
    let groups = vec![group("x", &["1", "1"]), group("y", &["1"])];
    let results = vec![b"2".to_vec(), b"1".to_vec()];
    assert_eq!(
        reduce_output_items(&groups, &results),
        vec![b"x".to_vec(), b"2".to_vec(), b"y".to_vec(), b"1".to_vec()]
    );
    assert!(reduce_output_items(&vec![], &vec![]).is_empty());
}

#[test]
fn output_file_names() {
    assert_eq!(reduce_output_name(&"/tmp/out".to_string(), 1), "/tmp/out/mr-out-0");
    assert_eq!(reduce_output_name(&"d".to_string(), 12), "d/mr-out-11");
    assert_eq!(reduce_output_name(&"".to_string(), 101), "/mr-out-100");
    assert_eq!(reduce_output_name(&"x".to_string(), u32::MAX), format!("x/mr-out-{}", u32::MAX - 1));
}

#[test]
fn step_after_reply() {
    let t = reply(0, 0, vec![]);
    assert!(matches!(worker_step(1, &t, WorkerEvent::Ready), WorkerStep::AskForTask { worker_id: 1 }));
    assert!(matches!(worker_step(9, &t, WorkerEvent::Ready), WorkerStep::AskForTask { worker_id: 9 }));
    assert!(matches!(worker_step(1, &t, WorkerEvent::Reply(reply(1, 0, vec![]))), WorkerStep::RunMap));
    assert!(matches!(worker_step(1, &t, WorkerEvent::Reply(reply(0, 0, vec![]))), WorkerStep::Wait));
    assert!(matches!(worker_step(1, &t, WorkerEvent::Reply(reply(0, 1, vec![2]))), WorkerStep::Wait));
    assert!(matches!(worker_step(1, &t, WorkerEvent::Reply(reply(1, 2, vec![2]))), WorkerStep::Wait));
    match worker_step(1, &t, WorkerEvent::Reply(reply(1, 1, vec![2, 5, 2]))) {
        WorkerStep::FetchFrom { workers, job_id, bucket_num, args, app, output_dir } => {
            assert_eq!(sorted(workers), vec![2, 5]);
            assert_eq!((job_id, bucket_num), (7, 3));
            assert_eq!(args, b"-i".to_vec());
            assert_eq!(app, "wc");
            assert_eq!(output_dir, "/tmp/out");
        }
        _ => panic!("a reduce task fetches its input"),
    }
}

#[test]
fn step_after_map() {
    let t = reply(1, 0, vec![]);
    match worker_step(4, &t, WorkerEvent::MapFinished(None)) {
        WorkerStep::ReportDone { worker_id, job_id, sub_job_id, job_type } => {
            assert_eq!((worker_id, job_id, sub_job_id, job_type), (4, 7, 3, 0))
        }
        _ => panic!("a finished map task is reported done"),
    }
    match worker_step(4, &t, WorkerEvent::MapFinished(Some("no file".to_string()))) {
        WorkerStep::ReportFailure { parent_job_id, error, then_stop } => {
            assert_eq!((parent_job_id, error.as_str(), then_stop), (7, "no file", false))
        }
        _ => panic!("a failed map task is reported as a failure"),
    }
}

#[test]
fn step_through_reduce() {
    let t = reply(1, 1, vec![2]);
    match worker_step(4, &t, WorkerEvent::FetchFailed(2)) {
        WorkerStep::ReportConnectError { id, worker_id, parent_job_id, sub_job_id } => {
            assert_eq!((id, worker_id, parent_job_id, sub_job_id), (4, 2, 7, 3))
        }
        _ => panic!("a failed fetch is reported"),
    }
    assert!(matches!(worker_step(4, &t, WorkerEvent::AllFetched), WorkerStep::RunReduce));
    match worker_step(4, &t, WorkerEvent::ReduceFailed("bad".to_string())) {
        WorkerStep::ReportFailure { parent_job_id, then_stop, .. } => assert_eq!((parent_job_id, then_stop), (7, true)),
        _ => panic!("a failed reduce is reported"),
    }
    let groups = vec![group("a", &["1", "1", "1"]), group("b", &["1"])];
    let results = vec![b"3".to_vec(), b"1".to_vec()];
    match worker_step(4, &t, WorkerEvent::ReduceFinished { groups, results }) {
        WorkerStep::WriteOutput { name, items } => {
            assert_eq!(name, "/tmp/out/mr-out-2");
            assert_eq!(items, vec![b"a".to_vec(), b"3".to_vec(), b"b".to_vec(), b"1".to_vec()]);
        }
        _ => panic!("a finished reduce is written"),
    }
    match worker_step(4, &t, WorkerEvent::OutputWritten) {
        WorkerStep::ReportDone { worker_id, job_id, sub_job_id, job_type } => {
            assert_eq!((worker_id, job_id, sub_job_id, job_type), (4, 7, 3, 1))
        }
        _ => panic!("a written output is reported done"),
    }
    assert!(matches!(worker_step(4, &t, WorkerEvent::OutputFailed), WorkerStep::Stop));
}
