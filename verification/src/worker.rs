//! The worker's side: where it serves from, what it does with a reply of the
//! coordinator, how it files map output into reduce buckets, and how it groups
//! fetched map output by key for a reduce task.

use std::collections::{HashMap, HashSet};
use vstd::std_specs::iter::IteratorSpec;
use vstd::prelude::*;

use crate::job::{clone_bytes, JobRequestReply, ReplyView};
use vstd::string::StringExecFns;
use crate::INITIAL_WORKER_PORT;

verus! {

broadcast use vstd::std_specs::hash::group_hash_axioms;

/// The port on which worker `id` serves its map output.
pub fn get_port(id: u32) -> (r: u16)
    requires
        INITIAL_WORKER_PORT + id <= u16::MAX,
    ensures
        r == INITIAL_WORKER_PORT + id,
{
    let port = INITIAL_WORKER_PORT as u32 + id;
    port as u16
}

/// What a worker does with the coordinator's reply to a task request.
#[derive(PartialEq, Eq, Structural, Clone, Copy, Debug)]
pub enum WorkerAction {
    /// Run the map task described by the reply.
    RunMap,
    /// Run the reduce task described by the reply.
    RunReduce,
    /// No task: wait, then ask again.
    Wait,
}

/// The action for a reply with the given `valid` flag and `job_type`.
pub fn next_action(valid: u32, job_type: u32) -> (r: WorkerAction)
    ensures
        r == (if valid == 1 && job_type == 0 {
            WorkerAction::RunMap
        } else if valid == 1 && job_type == 1 {
            WorkerAction::RunReduce
        } else {
            WorkerAction::Wait
        }),
{
    if valid == 1 && job_type == 0 {
        WorkerAction::RunMap
    } else if valid == 1 && job_type == 1 {
        WorkerAction::RunReduce
    } else {
        WorkerAction::Wait
    }
}

/// The reduce bucket (from 1) of a key whose hash is `key_hash`.
pub open spec fn bucket_of(key_hash: u32, n_reduce: u32) -> u32 {
    (key_hash % n_reduce + 1) as u32
}

/// The reduce bucket (from 1 to `n_reduce`) of a key whose hash is `key_hash`.
pub fn bucket_index(key_hash: u32, n_reduce: u32) -> (r: u32)
    requires
        n_reduce > 0,
    ensures
        r == bucket_of(key_hash, n_reduce),
        1 <= r <= n_reduce,
{
    key_hash % n_reduce + 1
}

/// One key-value pair produced by a map task, with the hash of its key.
pub struct MapOutput {
    pub key: Vec<u8>,
    pub value: Vec<u8>,
    pub key_hash: u32,
}

/// The mathematical value of a [`MapOutput`].
pub struct MapOutputView {
    pub key: Seq<u8>,
    pub value: Seq<u8>,
    pub key_hash: u32,
}

impl View for MapOutput {
    type V = MapOutputView;

    open spec fn view(&self) -> MapOutputView {
        MapOutputView { key: self.key@, value: self.value@, key_hash: self.key_hash }
    }
}

/// The items of bucket `b` of `bs`; none when there is no such bucket.
pub open spec fn bucket_items(bs: Map<u32, Seq<Seq<u8>>>, b: u32) -> Seq<Seq<u8>> {
    if bs.contains_key(b) {
        bs[b]
    } else {
        Seq::empty()
    }
}

/// The buckets `bs` after each pair of `outs`, in order, is appended (key,
/// then value) to the bucket of its key.
pub open spec fn filed(bs: Map<u32, Seq<Seq<u8>>>, outs: Seq<MapOutputView>, n_reduce: u32) -> Map<
    u32,
    Seq<Seq<u8>>,
>
    decreases outs.len(),
{
    if outs.len() == 0 {
        bs
    } else {
        let prev = filed(bs, outs.drop_last(), n_reduce);
        let o = outs.last();
        let b = bucket_of(o.key_hash, n_reduce);
        prev.insert(b, bucket_items(prev, b).push(o.key).push(o.value))
    }
}

/// The map output a worker holds: for each job, the items of each reduce
/// bucket (key, value, key, value, ...).
pub struct Worker {
    pub id: u32,
    jobs: HashMap<u32, HashMap<u32, Vec<Vec<u8>>>>,
}

pub open spec fn bytes_seq_view(v: Seq<Vec<u8>>) -> Seq<Seq<u8>> {
    v.map_values(|x: Vec<u8>| x@)
}

pub open spec fn buckets_view(m: Map<u32, Vec<Vec<u8>>>) -> Map<u32, Seq<Seq<u8>>> {
    m.map_values(|b: Vec<Vec<u8>>| bytes_seq_view(b@))
}

pub open spec fn store_view(m: Map<u32, HashMap<u32, Vec<Vec<u8>>>>) -> Map<u32, Map<u32, Seq<Seq<u8>>>> {
    m.map_values(|bs: HashMap<u32, Vec<Vec<u8>>>| buckets_view(bs@))
}

/// The mathematical value of a [`Worker`].
pub struct WorkerView {
    pub id: u32,
    pub jobs: Map<u32, Map<u32, Seq<Seq<u8>>>>,
}

impl View for Worker {
    type V = WorkerView;

    closed spec fn view(&self) -> WorkerView {
        WorkerView { id: self.id, jobs: store_view(self.jobs@) }
    }
}

impl Worker {
    /// The worker `id`, holding no map output.
    pub fn with_id(id: u32) -> (r: Worker)
        ensures
            r@ == (WorkerView { id, jobs: Map::empty() }),
    {
        let r = Worker { id, jobs: HashMap::new() };
        assert(r@.jobs =~= Map::empty());
        r
    }

    /// Files the output of a map task of job `parent_job_id`: each pair, in
    /// order, is appended (key, then value) to the bucket of its key. The
    /// job's table of buckets is made first, when it has none.
    pub fn file_map_output(&mut self, parent_job_id: u32, n_reduce: u32, outs: &Vec<MapOutput>)
        requires
            outs@.len() > 0 ==> n_reduce > 0,
        ensures
            final(self)@.id == old(self)@.id,
            final(self)@.jobs == old(self)@.jobs.insert(
                parent_job_id,
                filed(
                    if old(self)@.jobs.contains_key(parent_job_id) {
                        old(self)@.jobs[parent_job_id]
                    } else {
                        Map::empty()
                    },
                    outs@.map_values(|o: MapOutput| o@),
                    n_reduce,
                ),
            ),
    {
        let ghost jm = self.jobs@;
        let mut buckets = match self.jobs.remove(&parent_job_id) {
            Some(b) => b,
            None => HashMap::new(),
        };
        let ghost b0 = buckets_view(buckets@);
        proof {
            if !jm.contains_key(parent_job_id) {
                assert(b0 =~= Map::empty());
            }
        }
        let ghost ovs = outs@.map_values(|o: MapOutput| o@);
        let mut i: usize = 0;
        while i < outs.len()
            invariant
                0 <= i <= outs@.len(),
                outs@.len() > 0 ==> n_reduce > 0,
                ovs == outs@.map_values(|o: MapOutput| o@),
                buckets_view(buckets@) == filed(b0, ovs.subrange(0, i as int), n_reduce),
            decreases outs@.len() - i,
        {
            let o = &outs[i];
            let b = bucket_index(o.key_hash, n_reduce);
            let ghost bv = buckets_view(buckets@);
            let mut items = match buckets.remove(&b) {
                Some(v) => v,
                None => Vec::new(),
            };
            proof {
                assert(bytes_seq_view(items@) == bucket_items(bv, b)) by {
                    if !bv.contains_key(b) {
                        assert(bytes_seq_view(items@) =~= Seq::empty());
                    }
                }
            }
            items.push(clone_bytes(&o.key));
            items.push(clone_bytes(&o.value));
            let ghost bm = buckets@;
            buckets.insert(b, items);
            i = i + 1;
            proof {
                let sub = ovs.subrange(0, i as int);
                assert(sub.drop_last() =~= ovs.subrange(0, i - 1));
                assert(sub.last() == outs@[i - 1]@);
                assert(bytes_seq_view(items@) =~= bucket_items(bv, b).push(o.key@).push(o.value@));
                assert(buckets_view(buckets@) =~= bv.insert(b, bytes_seq_view(items@)));
            }
        }
        proof {
            assert(ovs.subrange(0, outs@.len() as int) =~= ovs);
        }
        let ghost bs = buckets@;
        self.jobs.insert(parent_job_id, buckets);
        proof {
            assert(jm.remove(parent_job_id).insert(parent_job_id, buckets) =~= jm.insert(parent_job_id, buckets));
            assert(store_view(self.jobs@) =~= store_view(jm).insert(parent_job_id, buckets_view(bs)));
        }
    }

    /// The items of bucket `bucket_num` of job `job_id`, which must be a job
    /// this worker ran a map task for; none when the bucket is empty.
    pub fn map_data(&self, job_id: u32, bucket_num: u32) -> (r: Vec<Vec<u8>>)
        requires
            self@.jobs.contains_key(job_id),
        ensures
            bytes_seq_view(r@) == bucket_items(self@.jobs[job_id], bucket_num),
    {
        let buckets = self.jobs.get(&job_id).unwrap();
        match buckets.get(&bucket_num) {
            None => {
                let r: Vec<Vec<u8>> = Vec::new();
                assert(bytes_seq_view(r@) =~= Seq::empty());
                r
            },
            Some(items) => {
                let mut r: Vec<Vec<u8>> = Vec::new();
                for i in 0..items.len()
                    invariant
                        r@.len() == i,
                        forall|j: int| 0 <= j < i ==> (#[trigger] r@[j])@ == items@[j]@,
                {
                    r.push(clone_bytes(&items[i]));
                }
                assert(bytes_seq_view(r@) =~= bytes_seq_view(items@));
                r
            },
        }
    }

    /// Whether this worker holds map output of job `job_id`.
    pub fn has_job(&self, job_id: u32) -> (r: bool)
        ensures
            r == self@.jobs.contains_key(job_id),
    {
        self.jobs.contains_key(&job_id)
    }
}

/// The values fetched for one key by a reduce task, in the order fetched.
pub struct KeyGroup {
    pub key: Vec<u8>,
    pub values: Vec<Vec<u8>>,
}

impl View for KeyGroup {
    type V = (Seq<u8>, Seq<Seq<u8>>);

    open spec fn view(&self) -> (Seq<u8>, Seq<Seq<u8>>) {
        (self.key@, bytes_seq_view(self.values@))
    }
}

pub open spec fn groups_view(gs: Seq<KeyGroup>) -> Seq<(Seq<u8>, Seq<Seq<u8>>)> {
    gs.map_values(|g: KeyGroup| g@)
}

/// No key has two groups.
pub open spec fn keys_distinct(gs: Seq<(Seq<u8>, Seq<Seq<u8>>)>) -> bool {
    forall|i: int, j: int| 0 <= i < gs.len() && 0 <= j < gs.len() && i != j ==> #[trigger] gs[i].0 != #[trigger] gs[j].0
}

/// Some group has key `k`.
pub open spec fn has_group(gs: Seq<(Seq<u8>, Seq<Seq<u8>>)>, k: Seq<u8>) -> bool {
    exists|i: int| 0 <= i < gs.len() && (#[trigger] gs[i]).0 == k
}

/// The position of a group with key `k`, when there is one.
pub open spec fn group_of(gs: Seq<(Seq<u8>, Seq<Seq<u8>>)>, k: Seq<u8>) -> int {
    choose|i: int| 0 <= i < gs.len() && (#[trigger] gs[i]).0 == k
}

/// The groups after value `v` is added under key `k`: appended to the group of
/// `k`, or in a new last group when `k` has none.
pub open spec fn add_to_groups(gs: Seq<(Seq<u8>, Seq<Seq<u8>>)>, k: Seq<u8>, v: Seq<u8>) -> Seq<
    (Seq<u8>, Seq<Seq<u8>>),
> {
    if has_group(gs, k) {
        let i = group_of(gs, k);
        gs.update(i, (k, gs[i].1.push(v)))
    } else {
        gs.push((k, seq![v]))
    }
}

/// The groups after the pairs of `items` (key, value, key, value, ...) are
/// added in order.
pub open spec fn grouped(gs: Seq<(Seq<u8>, Seq<Seq<u8>>)>, items: Seq<Seq<u8>>) -> Seq<
    (Seq<u8>, Seq<Seq<u8>>),
>
    decreases items.len(),
{
    if items.len() < 2 {
        gs
    } else {
        add_to_groups(
            grouped(gs, items.subrange(0, items.len() - 2)),
            items[items.len() - 2],
            items[items.len() - 1],
        )
    }
}

/// Whether two byte strings are equal.
pub fn bytes_eq(a: &Vec<u8>, b: &Vec<u8>) -> (r: bool)
    ensures
        r == (a@ == b@),
{
    if a.len() != b.len() {
        return false;
    }
    for i in 0..a.len()
        invariant
            a@.len() == b@.len(),
            forall|j: int| 0 <= j < i ==> a@[j] == b@[j],
    {
        if a[i] != b[i] {
            return false;
        }
    }
    assert(a@ =~= b@);
    true
}

/// Adds the map output fetched for a reduce task, `items` (key, value, key,
/// value, ...), to `groups`: each value in order under its key.
pub fn group_pairs(groups: &mut Vec<KeyGroup>, items: &Vec<Vec<u8>>)
    requires
        items@.len() % 2 == 0,
        keys_distinct(groups_view(old(groups)@)),
    ensures
        groups_view(final(groups)@) == grouped(groups_view(old(groups)@), bytes_seq_view(items@)),
        keys_distinct(groups_view(final(groups)@)),
{
    let ghost g0 = groups_view(groups@);
    let ghost iv = bytes_seq_view(items@);
    let mut t: usize = 0;
    while t + 1 < items.len()
        invariant
            items@.len() % 2 == 0,
            t % 2 == 0,
            t <= items@.len(),
            iv == bytes_seq_view(items@),
            groups_view(groups@) == grouped(g0, iv.subrange(0, t as int)),
            keys_distinct(groups_view(groups@)),
        decreases items@.len() - t,
    {
        let key = &items[t];
        let value = &items[t + 1];
        let ghost gv = groups_view(groups@);
        let mut j: usize = 0;
        let mut found = false;
        while j < groups.len()
            invariant_except_break
                !found,
            invariant
                0 <= j <= groups@.len(),
                gv == groups_view(groups@),
                forall|m: int| 0 <= m < j ==> gv[m].0 != key@,
            ensures
                found ==> j < groups@.len() && gv[j as int].0 == key@,
                !found ==> j == groups@.len(),
            decreases groups@.len() - j,
        {
            if bytes_eq(&groups[j].key, key) {
                found = true;
                break;
            }
            j = j + 1;
        }
        if found {
            proof {
                assert(gv[j as int].0 == key@);
                assert(has_group(gv, key@));
                assert(group_of(gv, key@) == j);
            }
            let ghost og = groups@;
            let v2 = clone_bytes(value);
            groups[j].values.push(v2);
            proof {
                assert(groups@.len() == og.len());
                assert(groups@[j as int].key == og[j as int].key);
                assert(groups@[j as int].values@ == og[j as int].values@.push(v2));
                assert(forall|m: int| 0 <= m < og.len() && m != j ==> groups@[m] == og[m]);
                assert(bytes_seq_view(groups@[j as int].values@) =~= bytes_seq_view(og[j as int].values@).push(value@));
                assert(groups_view(groups@) =~= gv.update(j as int, (key@, gv[j as int].1.push(value@))));
            }
        } else {
            let mut vs: Vec<Vec<u8>> = Vec::new();
            vs.push(clone_bytes(value));
            groups.push(KeyGroup { key: clone_bytes(key), values: vs });
            proof {
                assert(forall|m: int| 0 <= m < gv.len() ==> gv[m].0 != key@);
                assert(!has_group(gv, key@));
                assert(bytes_seq_view(vs@) =~= seq![value@]);
                assert(groups_view(groups@) =~= gv.push((key@, seq![value@])));
            }
        }
        t = t + 2;
        proof {
            let sub = iv.subrange(0, t as int);
            assert(sub.subrange(0, sub.len() - 2) =~= iv.subrange(0, t - 2));
            assert(sub[sub.len() - 2] == key@);
            assert(sub[sub.len() - 1] == value@);
        }
    }
    proof {
        assert(iv.subrange(0, items@.len() as int) =~= iv);
    }
}

/// The distinct worker ids of `ids`, each once, in the order in which a
/// `HashSet` of them is walked.
pub fn distinct_workers(ids: &Vec<u32>) -> (r: Vec<u32>)
    ensures
        r@.no_duplicates(),
        r@.to_set() == ids@.to_set(),
{
    let mut set: HashSet<u32> = HashSet::new();
    for i in 0..ids.len()
        invariant
            set@ == ids@.take(i as int).to_set(),
    {
        set.insert(ids[i]);
        proof {
            assert(ids@.take(i + 1) =~= ids@.take(i as int).push(ids@[i as int]));
            assert(ids@.take(i + 1).to_set() =~= ids@.take(i as int).to_set().insert(ids@[i as int])) by {
                assert forall|x: u32| #[trigger] ids@.take(i + 1).to_set().contains(x) <==> ids@.take(
                    i as int,
                ).to_set().insert(ids@[i as int]).contains(x) by {
                    if ids@.take(i + 1).to_set().contains(x) {
                        let k = choose|k: int| 0 <= k < i + 1 && #[trigger] ids@.take(i + 1)[k] == x;
                        if k < i {
                            assert(ids@.take(i as int)[k] == x);
                        }
                    }
                    if ids@.take(i as int).to_set().contains(x) {
                        let k = choose|k: int| 0 <= k < i && #[trigger] ids@.take(i as int)[k] == x;
                        assert(ids@.take(i + 1)[k] == x);
                    }
                    if x == ids@[i as int] {
                        assert(ids@.take(i + 1)[i as int] == x);
                    }
                }
            }
        }
    }
    proof {
        assert(ids@.take(ids@.len() as int) =~= ids@);
    }
    let mut r: Vec<u32> = Vec::new();
    for x in it: set.iter()
        invariant
            it.seq() == vstd::std_specs::hash::spec_hash_keys_iter(&set).remaining(),
            r@.len() == it.index(),
            forall|j: int| 0 <= j < it.index() ==> r@[j] == *(#[trigger] it.seq()[j]),
    {
        r.push(*x);
    }
    proof {
        let s = vstd::std_specs::hash::spec_hash_keys_iter(&set).remaining();
        assert(r@ =~= s.unref());
        assert forall|a: int, b: int| 0 <= a < r@.len() && 0 <= b < r@.len() && a != b implies r@[a]
            != r@[b] by {
            if r@[a] == r@[b] {
                assert(s[a] == s[b]);
            }
        }
    }
    r
}

/// The decimal digit `d`.
pub open spec fn digit_char(d: nat) -> char {
    seq!['0', '1', '2', '3', '4', '5', '6', '7', '8', '9'][d as int]
}

/// The decimal notation of `n`, without leading zeros.
pub open spec fn decimal(n: nat) -> Seq<char>
    decreases n,
{
    if n < 10 {
        seq![digit_char(n)]
    } else {
        decimal(n / 10) + seq![digit_char(n % 10)]
    }
}

/// The decimal digit `d` as a string.
fn digit_str(d: u32) -> (r: &'static str)
    requires
        d < 10,
    ensures
        r@ == seq![digit_char(d as nat)],
{
    proof {
        reveal_strlit("0");
        reveal_strlit("1");
        reveal_strlit("2");
        reveal_strlit("3");
        reveal_strlit("4");
        reveal_strlit("5");
        reveal_strlit("6");
        reveal_strlit("7");
        reveal_strlit("8");
        reveal_strlit("9");
    }
    let r = if d == 0 {
        "0"
    } else if d == 1 {
        "1"
    } else if d == 2 {
        "2"
    } else if d == 3 {
        "3"
    } else if d == 4 {
        "4"
    } else if d == 5 {
        "5"
    } else if d == 6 {
        "6"
    } else if d == 7 {
        "7"
    } else if d == 8 {
        "8"
    } else {
        "9"
    };
    assert(r@ =~= seq![digit_char(d as nat)]);
    r
}

/// Appends the decimal notation of `n` to `s`.
fn push_decimal(s: &mut String, n: u32)
    ensures
        final(s)@ == old(s)@ + decimal(n as nat),
    decreases n,
{
    if n >= 10 {
        push_decimal(s, n / 10);
    }
    s.append(digit_str(n % 10));
    proof {
        if n >= 10 {
            assert(old(s)@ + decimal((n / 10) as nat) + seq![digit_char((n % 10) as nat)] =~= old(s)@
                + decimal(n as nat));
        } else {
            assert(n % 10 == n);
        }
    }
}

/// The name of the file that receives the output of reduce task `job_id`
/// (counted from 1): `{output_dir}/mr-out-{job_id - 1}`.
pub fn reduce_output_name(output_dir: &String, job_id: u32) -> (r: String)
    requires
        job_id >= 1,
    ensures
        r@ == output_dir@ + "/mr-out-"@ + decimal((job_id - 1) as nat),
{
    let mut r = output_dir.clone();
    r.append("/mr-out-");
    push_decimal(&mut r, job_id - 1);
    r
}

/// The items of a reduce output: for each group in turn, its key, then the
/// reduce function's result on it.
pub open spec fn output_items(keys: Seq<Seq<u8>>, results: Seq<Seq<u8>>) -> Seq<Seq<u8>>
    decreases keys.len(),
{
    if keys.len() == 0 || results.len() == 0 {
        Seq::empty()
    } else {
        output_items(keys.drop_last(), results.drop_last()).push(keys.last()).push(results.last())
    }
}

/// The items of the output of a reduce task: for each group, in order, its
/// key followed by `results[i]`, the reduce function's result on that group.
pub fn reduce_output_items(groups: &Vec<KeyGroup>, results: &Vec<Vec<u8>>) -> (r: Vec<Vec<u8>>)
    requires
        groups@.len() == results@.len(),
    ensures
        bytes_seq_view(r@) == output_items(
            groups@.map_values(|g: KeyGroup| g.key@),
            bytes_seq_view(results@),
        ),
{
    let ghost keys = groups@.map_values(|g: KeyGroup| g.key@);
    let ghost res = bytes_seq_view(results@);
    let mut r: Vec<Vec<u8>> = Vec::new();
    for i in 0..groups.len()
        invariant
            groups@.len() == results@.len(),
            keys == groups@.map_values(|g: KeyGroup| g.key@),
            res == bytes_seq_view(results@),
            bytes_seq_view(r@) == output_items(keys.take(i as int), res.take(i as int)),
    {
        r.push(clone_bytes(&groups[i].key));
        r.push(clone_bytes(&results[i]));
        proof {
            assert(keys.take(i + 1).drop_last() =~= keys.take(i as int));
            assert(res.take(i + 1).drop_last() =~= res.take(i as int));
            assert(bytes_seq_view(r@) =~= output_items(keys.take(i as int), res.take(i as int)).push(
                groups@[i as int].key@,
            ).push(results@[i as int]@));
        }
    }
    proof {
        assert(keys.take(groups@.len() as int) =~= keys);
        assert(res.take(groups@.len() as int) =~= res);
    }
    r
}

/// What happened since the worker's last step.
pub enum WorkerEvent {
    /// The worker is ready for its next task (at start, and after a report or a wait).
    Ready,
    /// The coordinator answered a task request.
    Reply(JobRequestReply),
    /// The map task ended: `None` when it succeeded, else the error message.
    MapFinished(Option<String>),
    /// Fetching map output from worker `w` failed; nothing more was fetched.
    FetchFailed(u32),
    /// The map output of every worker was fetched.
    AllFetched,
    /// The reduce function failed on some key with this error message.
    ReduceFailed(String),
    /// The reduce function succeeded on every key: `results[i]` is its result
    /// on `groups[i]`.
    ReduceFinished { groups: Vec<KeyGroup>, results: Vec<Vec<u8>> },
    /// The reduce output was written.
    OutputWritten,
    /// Writing the reduce output failed.
    OutputFailed,
}

/// The mathematical value of a [`WorkerEvent`].
pub enum WorkerEventView {
    Ready,
    Reply(ReplyView),
    MapFinished(Option<Seq<char>>),
    FetchFailed(u32),
    AllFetched,
    ReduceFailed(Seq<char>),
    ReduceFinished { keys: Seq<Seq<u8>>, results: Seq<Seq<u8>> },
    OutputWritten,
    OutputFailed,
}

impl View for WorkerEvent {
    type V = WorkerEventView;

    open spec fn view(&self) -> WorkerEventView {
        match self {
            WorkerEvent::Ready => WorkerEventView::Ready,
            WorkerEvent::Reply(r) => WorkerEventView::Reply(r@),
            WorkerEvent::MapFinished(e) => WorkerEventView::MapFinished(
                match e {
                    Some(m) => Some(m@),
                    None => None,
                },
            ),
            WorkerEvent::FetchFailed(w) => WorkerEventView::FetchFailed(*w),
            WorkerEvent::AllFetched => WorkerEventView::AllFetched,
            WorkerEvent::ReduceFailed(e) => WorkerEventView::ReduceFailed(e@),
            WorkerEvent::ReduceFinished { groups, results } => WorkerEventView::ReduceFinished {
                keys: groups@.map_values(|g: KeyGroup| g.key@),
                results: bytes_seq_view(results@),
            },
            WorkerEvent::OutputWritten => WorkerEventView::OutputWritten,
            WorkerEvent::OutputFailed => WorkerEventView::OutputFailed,
        }
    }
}

/// What the worker does next.
pub enum WorkerStep {
    /// Ask the coordinator for a task, as worker `worker_id`.
    AskForTask { worker_id: u32 },
    /// Run the map task of the current reply.
    RunMap,
    /// Ask each of `workers`, in order, for bucket `bucket_num` of job `job_id`
    /// (with the job's `args`, `app` and `output_dir`), stopping at the first
    /// failure.
    FetchFrom {
        workers: Vec<u32>,
        job_id: u32,
        bucket_num: u32,
        args: Vec<u8>,
        app: String,
        output_dir: String,
    },
    /// Run the reduce function on every key of the fetched output.
    RunReduce,
    /// Report to the coordinator that a task is done.
    ReportDone { worker_id: u32, job_id: u32, sub_job_id: u32, job_type: u32 },
    /// Report to the coordinator that a job failed; then stop when `then_stop`.
    ReportFailure { parent_job_id: u32, error: String, then_stop: bool },
    /// Report to the coordinator that map output could not be fetched.
    ReportConnectError { id: u32, worker_id: u32, parent_job_id: u32, sub_job_id: u32 },
    /// Write `items` (key, result, key, result, ...) as the reduce output to the
    /// file of this name.
    WriteOutput { name: String, items: Vec<Vec<u8>> },
    /// Wait a while before asking again.
    Wait,
    /// Stop working.
    Stop,
}

/// The mathematical value of a [`WorkerStep`].
pub enum WorkerStepView {
    AskForTask { worker_id: u32 },
    RunMap,
    FetchFrom {
        workers: Seq<u32>,
        job_id: u32,
        bucket_num: u32,
        args: Seq<u8>,
        app: Seq<char>,
        output_dir: Seq<char>,
    },
    RunReduce,
    ReportDone { worker_id: u32, job_id: u32, sub_job_id: u32, job_type: u32 },
    ReportFailure { parent_job_id: u32, error: Seq<char>, then_stop: bool },
    ReportConnectError { id: u32, worker_id: u32, parent_job_id: u32, sub_job_id: u32 },
    WriteOutput { name: Seq<char>, items: Seq<Seq<u8>> },
    Wait,
    Stop,
}

impl View for WorkerStep {
    type V = WorkerStepView;

    open spec fn view(&self) -> WorkerStepView {
        match self {
            WorkerStep::AskForTask { worker_id } => WorkerStepView::AskForTask { worker_id: *worker_id },
            WorkerStep::RunMap => WorkerStepView::RunMap,
            WorkerStep::FetchFrom { workers, job_id, bucket_num, args, app, output_dir } =>
                WorkerStepView::FetchFrom {
                workers: workers@,
                job_id: *job_id,
                bucket_num: *bucket_num,
                args: args@,
                app: app@,
                output_dir: output_dir@,
            },
            WorkerStep::RunReduce => WorkerStepView::RunReduce,
            WorkerStep::ReportDone { worker_id, job_id, sub_job_id, job_type } => WorkerStepView::ReportDone {
                worker_id: *worker_id,
                job_id: *job_id,
                sub_job_id: *sub_job_id,
                job_type: *job_type,
            },
            WorkerStep::ReportFailure { parent_job_id, error, then_stop } => WorkerStepView::ReportFailure {
                parent_job_id: *parent_job_id,
                error: error@,
                then_stop: *then_stop,
            },
            WorkerStep::ReportConnectError { id, worker_id, parent_job_id, sub_job_id } =>
                WorkerStepView::ReportConnectError {
                id: *id,
                worker_id: *worker_id,
                parent_job_id: *parent_job_id,
                sub_job_id: *sub_job_id,
            },
            WorkerStep::WriteOutput { name, items } => WorkerStepView::WriteOutput {
                name: name@,
                items: bytes_seq_view(items@),
            },
            WorkerStep::Wait => WorkerStepView::Wait,
            WorkerStep::Stop => WorkerStepView::Stop,
        }
    }
}

/// `s` is the step of worker `id`, working on the task of reply `task`, after
/// event `ev`:
/// - when ready, it asks the coordinator for a task under its own id;
/// - a reply leads to running a map task, to fetching the input of a reduce
///   task (bucket `job_id` of job `parent_job_id`, with the reply's `args`,
///   `app` and `output_dir`) from each distinct worker that ran a map task, in
///   some order, or to waiting when there is no task;
/// - a map task that succeeded is reported done; one that failed is reported
///   as a failure of its job, and the worker goes on;
/// - a failed fetch is reported as a connect error, and nothing is written;
/// - once all is fetched the reduce runs; when it fails, the failure is
///   reported and the worker stops; when it succeeds, each key and the reduce
///   result on its values are written to `{output_dir}/mr-out-{job_id - 1}`,
///   and then the task is reported done;
/// - a failed write stops the worker.
pub open spec fn is_worker_step(id: u32, task: ReplyView, ev: WorkerEventView, s: WorkerStepView) -> bool {
    match ev {
        WorkerEventView::Ready => s == WorkerStepView::AskForTask { worker_id: id },
        WorkerEventView::Reply(r) => if r.valid == 1 && r.job_type == 0 {
            s == WorkerStepView::RunMap
        } else if r.valid == 1 && r.job_type == 1 {
            match s {
                WorkerStepView::FetchFrom { workers, job_id, bucket_num, args, app, output_dir } => {
                    &&& workers.no_duplicates()
                    &&& workers.to_set() == r.worker_ids.to_set()
                    &&& job_id == r.parent_job_id
                    &&& bucket_num == r.job_id
                    &&& args == r.args
                    &&& app == r.app
                    &&& output_dir == r.output_dir
                },
                _ => false,
            }
        } else {
            s == WorkerStepView::Wait
        },
        WorkerEventView::MapFinished(None) => s == WorkerStepView::ReportDone {
            worker_id: id,
            job_id: task.parent_job_id,
            sub_job_id: task.job_id,
            job_type: task.job_type,
        },
        WorkerEventView::MapFinished(Some(e)) => s == WorkerStepView::ReportFailure {
            parent_job_id: task.parent_job_id,
            error: e,
            then_stop: false,
        },
        WorkerEventView::FetchFailed(w) => s == WorkerStepView::ReportConnectError {
            id,
            worker_id: w,
            parent_job_id: task.parent_job_id,
            sub_job_id: task.job_id,
        },
        WorkerEventView::AllFetched => s == WorkerStepView::RunReduce,
        WorkerEventView::ReduceFailed(e) => s == WorkerStepView::ReportFailure {
            parent_job_id: task.parent_job_id,
            error: e,
            then_stop: true,
        },
        WorkerEventView::ReduceFinished { keys, results } => s == WorkerStepView::WriteOutput {
            name: task.output_dir + "/mr-out-"@ + decimal((task.job_id - 1) as nat),
            items: output_items(keys, results),
        },
        WorkerEventView::OutputWritten => s == WorkerStepView::ReportDone {
            worker_id: id,
            job_id: task.parent_job_id,
            sub_job_id: task.job_id,
            job_type: task.job_type,
        },
        WorkerEventView::OutputFailed => s == WorkerStepView::Stop,
    }
}

/// The step of worker `id`, working on the task of reply `task`, after event
/// `ev` (see [`is_worker_step`]). The output of a reduce task is named after
/// its id, which must then be at least 1, and holds one result per group.
pub fn worker_step(id: u32, task: &JobRequestReply, ev: WorkerEvent) -> (r: WorkerStep)
    requires
        ev matches WorkerEvent::ReduceFinished { groups, results } ==> task.job_id >= 1
            && groups@.len() == results@.len(),
    ensures
        is_worker_step(id, task@, ev@, r@),
{
    match ev {
        WorkerEvent::Ready => WorkerStep::AskForTask { worker_id: id },
        WorkerEvent::Reply(r) => match next_action(r.valid, r.job_type) {
            WorkerAction::RunMap => WorkerStep::RunMap,
            WorkerAction::RunReduce => WorkerStep::FetchFrom {
                workers: distinct_workers(&r.worker_ids),
                job_id: r.parent_job_id,
                bucket_num: r.job_id,
                args: r.args,
                app: r.app,
                output_dir: r.output_dir,
            },
            WorkerAction::Wait => WorkerStep::Wait,
        },
        WorkerEvent::MapFinished(None) => WorkerStep::ReportDone {
            worker_id: id,
            job_id: task.parent_job_id,
            sub_job_id: task.job_id,
            job_type: task.job_type,
        },
        WorkerEvent::MapFinished(Some(e)) => WorkerStep::ReportFailure {
            parent_job_id: task.parent_job_id,
            error: e,
            then_stop: false,
        },
        WorkerEvent::FetchFailed(w) => WorkerStep::ReportConnectError {
            id,
            worker_id: w,
            parent_job_id: task.parent_job_id,
            sub_job_id: task.job_id,
        },
        WorkerEvent::AllFetched => WorkerStep::RunReduce,
        WorkerEvent::ReduceFailed(e) => WorkerStep::ReportFailure {
            parent_job_id: task.parent_job_id,
            error: e,
            then_stop: true,
        },
        WorkerEvent::ReduceFinished { groups, results } => WorkerStep::WriteOutput {
            name: reduce_output_name(&task.output_dir, task.job_id),
            items: reduce_output_items(&groups, &results),
        },
        WorkerEvent::OutputWritten => WorkerStep::ReportDone {
            worker_id: id,
            job_id: task.parent_job_id,
            sub_job_id: task.job_id,
            job_type: task.job_type,
        },
        WorkerEvent::OutputFailed => WorkerStep::Stop,
    }
}

} // verus!
