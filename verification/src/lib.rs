//! Bookkeeping for a MapReduce cluster: the coordinator's job table and
//! worker registry, and the worker's intermediate-data store.

use vstd::prelude::*;

pub mod coordinator;
pub mod job;
pub mod laws;
pub mod worker;

verus! {

/// A worker that has not sent a heartbeat for this many seconds is taken for dead.
pub const TASK_TIMEOUT_SECS: u64 = 5;

/// Worker `id` serves map output on port `INITIAL_WORKER_PORT + id`.
pub const INITIAL_WORKER_PORT: u16 = 40000;

} // verus!
