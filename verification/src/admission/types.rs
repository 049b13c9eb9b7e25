//! Plain values exchanged between the router and an admission policy.

use vstd::prelude::*;

verus! {

/// One data-parallel rank of one worker.
#[derive(Clone, Copy, Debug, PartialEq, Eq, Structural, Hash, PartialOrd, Ord)]
pub struct WorkerWithDpRank {
    pub worker_id: u64,
    pub dp_rank: u32,
}

impl WorkerWithDpRank {
    pub fn new(worker_id: u64, dp_rank: u32) -> (r: Self)
        ensures
            r.worker_id == worker_id,
            r.dp_rank == dp_rank,
    {
        WorkerWithDpRank { worker_id, dp_rank }
    }
}

/// Workers are ordered by id, then by rank.
pub open spec fn worker_lt(a: WorkerWithDpRank, b: WorkerWithDpRank) -> bool {
    a.worker_id < b.worker_id || (a.worker_id == b.worker_id && a.dp_rank < b.dp_rank)
}

pub fn worker_less(a: WorkerWithDpRank, b: WorkerWithDpRank) -> (r: bool)
    ensures
        r == worker_lt(a, b),
{
    a.worker_id < b.worker_id || (a.worker_id == b.worker_id && a.dp_rank < b.dp_rank)
}

/// Identity of a request within one admission policy.
#[derive(Clone, Copy, Debug, PartialEq, Eq, Structural, Hash)]
pub struct AdmissionId {
    pub value: u64,
}

impl AdmissionId {
    pub fn new(value: u64) -> (r: Self)
        ensures
            r.value == value,
    {
        AdmissionId { value }
    }
}

/// Where a released request may be sent.
#[derive(Clone, Copy, Debug, PartialEq, Eq, Structural)]
pub enum WorkerPlacement {
    Any,
    Exact(WorkerWithDpRank),
}

/// The answer to an admission request.
#[derive(Clone, Copy, Debug, PartialEq, Eq, Structural)]
pub enum AdmissionDecision {
    Ready(WorkerPlacement),
    Defer,
    Bypass,
}

/// A deferred request that the policy now releases.
#[derive(Clone, Copy, Debug, PartialEq, Eq, Structural)]
pub struct AdmissionAction {
    pub id: AdmissionId,
    pub placement: WorkerPlacement,
}

/// Lifecycle events the router reports to the policy.
#[derive(Clone, Copy, Debug, PartialEq, Eq, Structural)]
pub enum AdmissionEvent {
    Dispatched { id: AdmissionId, worker: WorkerWithDpRank },
    Completed { id: AdmissionId, context_tokens: usize },
    Aborted { id: AdmissionId },
    Reconcile,
}

/// A request offered to the policy.
#[derive(Clone, Debug)]
pub struct AdmissionRequest {
    pub id: AdmissionId,
    pub session_id: Option<String>,
    pub session_final: bool,
    pub context_tokens: usize,
}

/// Which workers a request may use: `structural` are the workers it may ever
/// run on, `available` those that can take it right now.
#[derive(Clone, Debug)]
pub struct WorkerEligibilitySnapshot {
    pub structural: Vec<WorkerWithDpRank>,
    pub available: Vec<WorkerWithDpRank>,
}

pub open spec fn snapshot_allows(s: WorkerEligibilitySnapshot, w: WorkerWithDpRank) -> bool {
    s.available@.contains(w)
}

pub open spec fn snapshot_structurally_allows(
    s: WorkerEligibilitySnapshot,
    w: WorkerWithDpRank,
) -> bool {
    s.structural@.contains(w)
}

pub open spec fn snapshot_has_structural(s: WorkerEligibilitySnapshot) -> bool {
    s.structural@.len() > 0
}

pub open spec fn snapshot_has_available(s: WorkerEligibilitySnapshot) -> bool {
    s.available@.len() > 0
}

fn contains_worker(v: &Vec<WorkerWithDpRank>, w: WorkerWithDpRank) -> (r: bool)
    ensures
        r == v@.contains(w),
{
    let mut i: usize = 0;
    while i < v.len()
        invariant
            i <= v.len(),
            forall|j: int| 0 <= j < i ==> v@[j] != w,
        decreases v.len() - i,
    {
        if v[i] == w {
            return true;
        }
        i = i + 1;
    }
    false
}

impl WorkerEligibilitySnapshot {
    /// Every listed worker is both structurally eligible and available.
    pub fn new(workers: Vec<WorkerWithDpRank>) -> (r: Self)
        ensures
            r.structural@ == workers@,
            r.available@ == workers@,
    {
        let available = workers.clone();
        WorkerEligibilitySnapshot { structural: workers, available }
    }

    pub fn with_availability(
        structural: Vec<WorkerWithDpRank>,
        available: Vec<WorkerWithDpRank>,
    ) -> (r: Self)
        ensures
            r.structural@ == structural@,
            r.available@ == available@,
    {
        WorkerEligibilitySnapshot { structural, available }
    }

    pub fn allows(&self, w: WorkerWithDpRank) -> (r: bool)
        ensures
            r == snapshot_allows(*self, w),
    {
        contains_worker(&self.available, w)
    }

    pub fn structurally_allows(&self, w: WorkerWithDpRank) -> (r: bool)
        ensures
            r == snapshot_structurally_allows(*self, w),
    {
        contains_worker(&self.structural, w)
    }

    pub fn has_structural_worker(&self) -> (r: bool)
        ensures
            r == snapshot_has_structural(*self),
    {
        self.structural.len() > 0
    }

    pub fn has_available_worker(&self) -> (r: bool)
        ensures
            r == snapshot_has_available(*self),
    {
        self.available.len() > 0
    }
}

/// KV capacity of one worker rank, in tokens.
#[derive(Clone, Copy, Debug, PartialEq, Eq, Structural)]
pub struct WorkerCapacity {
    pub worker: WorkerWithDpRank,
    /// GPU KV capacity available to requests that may be delivered to the backend.
    pub device_tokens: usize,
    /// Combined GPU KV and native-offload capacity used for session retention.
    pub tokens: usize,
}

/// A worker's capacity together with the pressure limits derived from the
/// configured fractions: `threshold_tokens` triggers pausing, `target_tokens`
/// is the level pausing aims for and the ceiling for resuming.
#[derive(Clone, Copy, Debug, PartialEq, Eq, Structural)]
pub struct PressureCapacity {
    pub capacity: WorkerCapacity,
    pub threshold_tokens: usize,
    pub target_tokens: usize,
}

/// Durations (in nanoseconds) that drive the policy clock.
#[derive(Clone, Copy, Debug, PartialEq, Eq, Structural)]
pub struct PolicyTiming {
    pub resume_timeout_nanos: u64,
    pub session_retention_nanos: u64,
    pub scheduler_interval_nanos: u64,
}

} // verus!
