# map_reduce

The bookkeeping of a MapReduce cluster, verified with Verus.

- `src/job.rs`: jobs and their map and reduce tasks; handing out pending tasks.
- `src/coordinator.rs`: the coordinator's job table and worker registry:
  submitting and polling jobs, registering workers, heartbeats, serving task
  requests (dropping dead workers and taking their tasks back), and the reports
  that workers send (task done, task failed, map output unreachable).
- `src/worker.rs`: the worker's side: its port, what it does with a reply, how
  it files map output into reduce buckets and groups fetched pairs by key,
  what a reduce task writes, and the decisions of its work loop (`worker_step`).
- `src/laws.rs`: properties that span several operations.
- `app/`: the coordinator program, serving the RPC protocol over the library.
  There is no worker program: it would need the applications, the key hash,
  the framing of map and reduce output, and the worker's RPC service, none of
  which this crate provides.
