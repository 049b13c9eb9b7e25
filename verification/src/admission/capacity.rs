//! Worker KV capacities derived from the workers' configurations: device
//! tokens from KV blocks, plus native-offload tokens for session retention,
//! for each data-parallel rank.

use vstd::prelude::*;
use super::types::{WorkerWithDpRank, WorkerCapacity};
use super::keysort::{SortKey, key_sort, key_sorted, key_sorted_upto, lemma_sorted_len, lemma_sorted_members, lemma_sorted_contains, lemma_sorted_ordered};

verus! {

/// What a worker's configuration says about its capacity.
#[derive(Clone, Copy, Debug, PartialEq, Eq, Structural)]
pub struct WorkerConfigData {
    pub data_parallel_start_rank: u32,
    pub data_parallel_size: u32,
    pub total_kv_blocks: Option<u64>,
    pub native_offloading_capacity_tokens: Option<u64>,
}

pub open spec fn sat_mul_u64(a: u64, b: u64) -> u64 {
    if a * b > u64::MAX {
        u64::MAX
    } else {
        (a * b) as u64
    }
}

pub open spec fn sat_add_u64(a: u64, b: u64) -> u64 {
    if a + b > u64::MAX {
        u64::MAX
    } else {
        (a + b) as u64
    }
}

/// `x` as a `usize`, or `usize::MAX` when it does not fit.
pub open spec fn usize_sat(x: u64) -> usize {
    if x > usize::MAX {
        usize::MAX
    } else {
        x as usize
    }
}

/// A worker's KV blocks, when it reports a usable (nonzero) number.
pub open spec fn usable_blocks(c: WorkerConfigData) -> Option<u64> {
    match c.total_kv_blocks {
        Some(b) => if b == 0 {
            None
        } else {
            Some(b)
        },
        None => None,
    }
}

/// The last rank past a worker's data-parallel ranks (saturating).
pub open spec fn rank_end(c: WorkerConfigData) -> u32 {
    if c.data_parallel_start_rank + c.data_parallel_size > u32::MAX {
        u32::MAX
    } else {
        (c.data_parallel_start_rank + c.data_parallel_size) as u32
    }
}

/// The capacities of one worker: one per data-parallel rank, none without
/// usable KV blocks.
pub open spec fn worker_capacities(id: u64, c: WorkerConfigData, block_size: u32) -> Seq<WorkerCapacity> {
    match usable_blocks(c) {
        None => Seq::empty(),
        Some(blocks) => {
            let device = sat_mul_u64(blocks, block_size as u64);
            let total = sat_add_u64(
                device,
                match c.native_offloading_capacity_tokens {
                    Some(t) => t,
                    None => 0,
                },
            );
            let start = c.data_parallel_start_rank;
            let count = rank_end(c) - start;
            Seq::new(
                if count > 0 {
                    count as nat
                } else {
                    0
                },
                |k: int|
                    WorkerCapacity {
                        worker: WorkerWithDpRank { worker_id: id, dp_rank: (start + k) as u32 },
                        device_tokens: usize_sat(device),
                        tokens: usize_sat(total),
                    },
            )
        },
    }
}

/// The capacities of the first `n` workers, in input order.
pub open spec fn capacities_upto(workers: Seq<(u64, WorkerConfigData)>, block_size: u32, n: int) -> Seq<
    WorkerCapacity,
>
    decreases n,
{
    if n <= 0 {
        Seq::empty()
    } else {
        capacities_upto(workers, block_size, n - 1) + worker_capacities(workers[n - 1].0, workers[n - 1].1, block_size)
    }
}

/// The workers among the first `n` without usable KV capacity.
pub open spec fn missing_upto(workers: Seq<(u64, WorkerConfigData)>, n: int) -> nat
    decreases n,
{
    if n <= 0 {
        0
    } else {
        missing_upto(workers, n - 1) + if usable_blocks(workers[n - 1].1) is None {
            1nat
        } else {
            0nat
        }
    }
}

pub open spec fn capacity_key(c: WorkerCapacity) -> SortKey {
    (c.worker.worker_id, c.worker.dp_rank as u64, 0)
}

/// All capacities, ordered by worker then rank.
pub open spec fn capacity_snapshot(workers: Seq<(u64, WorkerConfigData)>, block_size: u32) -> Seq<WorkerCapacity> {
    let c = capacities_upto(workers, block_size, workers.len() as int);
    let r = key_sorted(Seq::new(c.len(), |i: int| (capacity_key(c[i]), i as usize)));
    Seq::new(r.len(), |j: int| c[r[j].1 as int])
}

/// Entry `e` is a capacity of worker `id` configured by `c`: it has usable
/// KV blocks, its device tokens are the blocks times the block size and its
/// retention tokens are the device tokens plus the native offload (none
/// counting as zero), each saturating, on one of its data-parallel ranks.
pub open spec fn capacity_of_config(e: WorkerCapacity, id: u64, c: WorkerConfigData, block_size: u32) -> bool {
    let offload: u64 = match c.native_offloading_capacity_tokens {
        Some(t) => t,
        None => 0,
    };
    &&& c.total_kv_blocks matches Some(b) && b > 0 && {
        let device: int = if b * block_size > u64::MAX { u64::MAX as int } else { b * block_size };
        let total: int = if device + offload > u64::MAX { u64::MAX as int } else { device + offload };
        &&& e.device_tokens == (if device > usize::MAX { usize::MAX as int } else { device })
        &&& e.tokens == (if total > usize::MAX { usize::MAX as int } else { total })
    }
    &&& e.worker.worker_id == id
    &&& c.data_parallel_start_rank <= e.worker.dp_rank
    &&& e.worker.dp_rank < c.data_parallel_start_rank + c.data_parallel_size
}

proof fn lemma_capacities_upto_from_configs(workers: Seq<(u64, WorkerConfigData)>, block_size: u32, n: int)
    requires
        0 <= n <= workers.len(),
    ensures
        forall|k: int|
            0 <= k < capacities_upto(workers, block_size, n).len() ==> exists|i: int|
                0 <= i < n && capacity_of_config(
                    #[trigger] capacities_upto(workers, block_size, n)[k],
                    workers[i].0,
                    workers[i].1,
                    block_size,
                ),
    decreases n,
{
    if n > 0 {
        lemma_capacities_upto_from_configs(workers, block_size, n - 1);
        let r = capacities_upto(workers, block_size, n - 1);
        let w = worker_capacities(workers[n - 1].0, workers[n - 1].1, block_size);
        let t = capacities_upto(workers, block_size, n);
        assert(t == r + w);
        assert forall|k: int| 0 <= k < t.len() implies exists|i: int|
            0 <= i < n && capacity_of_config(#[trigger] t[k], workers[i].0, workers[i].1, block_size) by {
            if k < r.len() {
                assert(t[k] == r[k]);
                let i = choose|i: int| 0 <= i < n - 1 && capacity_of_config(r[k], workers[i].0, workers[i].1, block_size);
                assert(capacity_of_config(t[k], workers[i].0, workers[i].1, block_size));
            } else {
                assert(t[k] == w[k - r.len()]);
                assert(capacity_of_config(t[k], workers[n - 1].0, workers[n - 1].1, block_size));
            }
        }
    }
}

/// Every capacity in the snapshot comes from the configuration of one of the
/// workers with usable (nonzero) KV blocks: its device tokens are the blocks
/// times the block size, and its retention tokens are the device tokens plus
/// the native offload, a missing offload counting as zero (saturating). So
/// retention never falls below the device tokens, and equals them without
/// offload. (The capacities are taken to fit in memory.)
pub proof fn law_snapshot_capacities_follow_configs(workers: Seq<(u64, WorkerConfigData)>, block_size: u32)
    requires
        capacities_upto(workers, block_size, workers.len() as int).len() <= usize::MAX,
    ensures
        forall|j: int|
            0 <= j < capacity_snapshot(workers, block_size).len() ==> exists|i: int|
                0 <= i < workers.len() && capacity_of_config(
                    #[trigger] capacity_snapshot(workers, block_size)[j],
                    workers[i].0,
                    workers[i].1,
                    block_size,
                ),
        forall|j: int|
            0 <= j < capacity_snapshot(workers, block_size).len() ==> (#[trigger] capacity_snapshot(
                workers,
                block_size,
            )[j]).tokens >= capacity_snapshot(workers, block_size)[j].device_tokens,
{
    let n = workers.len() as int;
    let c = capacities_upto(workers, block_size, n);
    let keyed = Seq::new(c.len(), |i: int| (capacity_key(c[i]), i as usize));
    lemma_capacities_upto_from_configs(workers, block_size, n);
    lemma_sorted_len(keyed, keyed.len() as int);
    lemma_sorted_members(keyed, keyed.len() as int);
    let r = key_sorted(keyed);
    let snap = capacity_snapshot(workers, block_size);
    assert forall|j: int| 0 <= j < snap.len() implies exists|i: int|
        0 <= i < workers.len() && capacity_of_config(#[trigger] snap[j], workers[i].0, workers[i].1, block_size) by {
        let m = choose|m: int| 0 <= m < keyed.len() && key_sorted_upto(keyed, keyed.len() as int)[j] == keyed[m];
        assert(r[j] == keyed[m]);
        assert(snap[j] == c[m]);
        assert(m < c.len());
    }
    assert forall|j: int| 0 <= j < snap.len() implies (#[trigger] snap[j]).tokens >= snap[j].device_tokens by {
        let i = choose|i: int| 0 <= i < workers.len() && capacity_of_config(snap[j], workers[i].0, workers[i].1, block_size);
    }
}

proof fn lemma_capacities_upto_cover(
    workers: Seq<(u64, WorkerConfigData)>,
    block_size: u32,
    n: int,
    i: int,
    rank: u32,
)
    requires
        0 <= i < n <= workers.len(),
        usable_blocks(workers[i].1) is Some,
        workers[i].1.data_parallel_start_rank <= rank,
        rank < rank_end(workers[i].1),
    ensures
        exists|k: int|
            0 <= k < capacities_upto(workers, block_size, n).len() && #[trigger] capacities_upto(workers, block_size, n)[k]
                == worker_capacities(workers[i].0, workers[i].1, block_size)[rank - workers[i].1.data_parallel_start_rank],
    decreases n,
{
    let r = capacities_upto(workers, block_size, n - 1);
    let t = capacities_upto(workers, block_size, n);
    if i < n - 1 {
        lemma_capacities_upto_cover(workers, block_size, n - 1, i, rank);
        let k = choose|k: int|
            0 <= k < r.len() && #[trigger] r[k] == worker_capacities(workers[i].0, workers[i].1, block_size)[rank
                - workers[i].1.data_parallel_start_rank];
        assert(t[k] == r[k]);
    } else {
        let k = r.len() + (rank - workers[i].1.data_parallel_start_rank);
        assert(t[k] == worker_capacities(workers[i].0, workers[i].1, block_size)[rank - workers[i].1.data_parallel_start_rank]);
    }
}

/// The snapshot leaves no worker rank out: every data-parallel rank of every
/// worker with usable (nonzero) KV blocks has a capacity entry built from
/// that worker's configuration (ranks run up to the start plus the size,
/// saturating, so the last `u32` value is never a rank).
pub proof fn law_snapshot_covers_every_rank(
    workers: Seq<(u64, WorkerConfigData)>,
    block_size: u32,
    i: int,
    rank: u32,
)
    requires
        capacities_upto(workers, block_size, workers.len() as int).len() <= usize::MAX,
        0 <= i < workers.len(),
        workers[i].1.total_kv_blocks matches Some(b) && b > 0,
        workers[i].1.data_parallel_start_rank <= rank,
        rank < workers[i].1.data_parallel_start_rank + workers[i].1.data_parallel_size,
        rank < u32::MAX,
    ensures
        exists|j: int|
            0 <= j < capacity_snapshot(workers, block_size).len() && (#[trigger] capacity_snapshot(workers, block_size)[j]).worker
                == (WorkerWithDpRank { worker_id: workers[i].0, dp_rank: rank }) && capacity_of_config(
                capacity_snapshot(workers, block_size)[j],
                workers[i].0,
                workers[i].1,
                block_size,
            ),
{
    let n = workers.len() as int;
    let c = capacities_upto(workers, block_size, n);
    let keyed = Seq::new(c.len(), |m: int| (capacity_key(c[m]), m as usize));
    lemma_capacities_upto_cover(workers, block_size, n, i, rank);
    let k = choose|k: int|
        0 <= k < c.len() && #[trigger] c[k] == worker_capacities(workers[i].0, workers[i].1, block_size)[rank
            - workers[i].1.data_parallel_start_rank];
    let wc = worker_capacities(workers[i].0, workers[i].1, block_size);
    assert(wc.len() == rank_end(workers[i].1) - workers[i].1.data_parallel_start_rank);
    assert(c[k] == wc[rank - workers[i].1.data_parallel_start_rank]);
    assert(capacity_of_config(c[k], workers[i].0, workers[i].1, block_size));
    assert(c[k].worker.dp_rank == rank);
    lemma_sorted_contains(keyed, keyed.len() as int);
    lemma_sorted_len(keyed, keyed.len() as int);
    assert(key_sorted_upto(keyed, keyed.len() as int).contains(keyed[k]));
    let r = key_sorted(keyed);
    let j = choose|j: int| 0 <= j < r.len() && r[j] == keyed[k];
    let snap = capacity_snapshot(workers, block_size);
    assert(snap[j] == c[k]);
}

/// The snapshot is ordered by worker id, then by data-parallel rank.
pub proof fn law_snapshot_ordered_by_worker_then_rank(workers: Seq<(u64, WorkerConfigData)>, block_size: u32)
    requires
        capacities_upto(workers, block_size, workers.len() as int).len() <= usize::MAX,
    ensures
        forall|a: int, b: int|
            0 <= a < b < capacity_snapshot(workers, block_size).len() ==> {
                let x = #[trigger] capacity_snapshot(workers, block_size)[a];
                let y = #[trigger] capacity_snapshot(workers, block_size)[b];
                x.worker.worker_id < y.worker.worker_id || (x.worker.worker_id == y.worker.worker_id
                    && x.worker.dp_rank <= y.worker.dp_rank)
            },
{
    let n = workers.len() as int;
    let c = capacities_upto(workers, block_size, n);
    let keyed = Seq::new(c.len(), |m: int| (capacity_key(c[m]), m as usize));
    lemma_sorted_len(keyed, keyed.len() as int);
    lemma_sorted_members(keyed, keyed.len() as int);
    lemma_sorted_ordered(keyed, keyed.len() as int);
    let r = key_sorted(keyed);
    let snap = capacity_snapshot(workers, block_size);
    assert forall|j: int| 0 <= j < snap.len() implies r[j].0 == capacity_key(#[trigger] snap[j]) by {
        let m = choose|m: int| 0 <= m < keyed.len() && key_sorted_upto(keyed, keyed.len() as int)[j] == keyed[m];
        assert(r[j] == keyed[m]);
        assert(snap[j] == c[m]);
    }
    assert forall|a: int, b: int| 0 <= a < b < snap.len() implies {
        let x = #[trigger] snap[a];
        let y = #[trigger] snap[b];
        x.worker.worker_id < y.worker.worker_id || (x.worker.worker_id == y.worker.worker_id
            && x.worker.dp_rank <= y.worker.dp_rank)
    } by {
        assert(!super::keysort::key_gt(r[a].0, r[b].0));
        assert(r[a].0 == capacity_key(snap[a]));
        assert(r[b].0 == capacity_key(snap[b]));
    }
}

/// The count of workers left out is zero exactly when every worker reports a
/// usable (nonzero) KV block count, and never exceeds the number of workers.
pub proof fn law_missing_counts_unusable_workers(workers: Seq<(u64, WorkerConfigData)>, n: int)
    requires
        0 <= n <= workers.len(),
    ensures
        missing_upto(workers, n) <= n,
        missing_upto(workers, n) == 0 <==> forall|i: int|
            0 <= i < n ==> ((#[trigger] workers[i]).1.total_kv_blocks matches Some(b) && b > 0),
    decreases n,
{
    if n > 0 {
        law_missing_counts_unusable_workers(workers, n - 1);
        if missing_upto(workers, n) == 0 {
            assert forall|i: int| 0 <= i < n implies ((#[trigger] workers[i]).1.total_kv_blocks matches Some(b) && b > 0) by {
                if i == n - 1 {
                    assert(usable_blocks(workers[i].1) is Some);
                }
            }
        }
    }
}

fn push_worker_capacities(out: &mut Vec<WorkerCapacity>, id: u64, c: &WorkerConfigData, block_size: u32) -> (missing: bool)
    ensures
        final(out)@ == old(out)@ + worker_capacities(id, *c, block_size),
        missing == (usable_blocks(*c) is None),
{
    let blocks = match c.total_kv_blocks {
        None => {
            assert(final(out)@ =~= old(out)@ + worker_capacities(id, *c, block_size));
            return true;
        },
        Some(b) => b,
    };
    if blocks == 0 {
        assert(out@ =~= old(out)@ + worker_capacities(id, *c, block_size));
        return true;
    }
    let device = match blocks.checked_mul(block_size as u64) {
        Some(x) => x,
        None => u64::MAX,
    };
    let offload = match c.native_offloading_capacity_tokens {
        Some(t) => t,
        None => 0,
    };
    let total = device.saturating_add(offload);
    let device_tokens: usize = if device > usize::MAX as u64 {
        usize::MAX
    } else {
        device as usize
    };
    let tokens: usize = if total > usize::MAX as u64 {
        usize::MAX
    } else {
        total as usize
    };
    let start = c.data_parallel_start_rank;
    let end = start.saturating_add(c.data_parallel_size);
    let ghost expected = worker_capacities(id, *c, block_size);
    let mut rank = start;
    while rank < end
        invariant
            start <= rank <= end,
            end == rank_end(*c),
            usable_blocks(*c) == Some(blocks),
            device == sat_mul_u64(blocks, block_size as u64),
            device_tokens == usize_sat(device),
            tokens == usize_sat(total),
            total == sat_add_u64(device, offload),
            offload == match c.native_offloading_capacity_tokens {
                Some(t) => t,
                None => 0,
            },
            expected == worker_capacities(id, *c, block_size),
            expected.len() == end - start,
            out@ == old(out)@ + expected.take(rank - start),
        decreases end - rank,
    {
        out.push(WorkerCapacity { worker: WorkerWithDpRank { worker_id: id, dp_rank: rank }, device_tokens, tokens });
        assert(expected.take(rank + 1 - start) =~= expected.take(rank - start).push(expected[rank - start]));
        rank = rank + 1;
    }
    assert(expected.take(end - start) =~= expected);
    false
}

/// The capacities of the workers, one per data-parallel rank, ordered by
/// worker then rank; workers without a usable (nonzero) KV block count are
/// left out and counted.
pub fn capacity_snapshot_of(workers: &[(u64, WorkerConfigData)], block_size: u32) -> (r: (Vec<WorkerCapacity>, usize))
    ensures
        r.0@ == capacity_snapshot(workers@, block_size),
        r.1 == missing_upto(workers@, workers@.len() as int),
        forall|j: int|
            0 <= j < r.0@.len() ==> exists|i: int|
                0 <= i < workers@.len() && capacity_of_config(#[trigger] r.0@[j], workers@[i].0, workers@[i].1, block_size),
{
    let mut all: Vec<WorkerCapacity> = Vec::new();
    let mut missing: usize = 0;
    let mut i: usize = 0;
    while i < workers.len()
        invariant
            i <= workers@.len(),
            all@ == capacities_upto(workers@, block_size, i as int),
            missing == missing_upto(workers@, i as int),
            missing <= i,
        decreases workers@.len() - i,
    {
        let (id, c) = workers[i];
        if push_worker_capacities(&mut all, id, &c, block_size) {
            missing = missing + 1;
        }
        i = i + 1;
    }
    let ghost c = all@;
    let ghost keyed_spec = Seq::new(c.len(), |i: int| (capacity_key(c[i]), i as usize));
    let mut keyed: Vec<(SortKey, usize)> = Vec::new();
    let mut k: usize = 0;
    while k < all.len()
        invariant
            c == all@,
            k <= all@.len(),
            keyed_spec == Seq::new(c.len(), |i: int| (capacity_key(c[i]), i as usize)),
            keyed@ == keyed_spec.take(k as int),
        decreases all@.len() - k,
    {
        let w = all[k].worker;
        keyed.push(((w.worker_id, w.dp_rank as u64, 0), k));
        assert(keyed_spec.take(k + 1) =~= keyed_spec.take(k as int).push(keyed_spec[k as int]));
        k = k + 1;
    }
    assert(keyed_spec.take(c.len() as int) =~= keyed_spec);
    let sorted = key_sort(keyed);
    proof {
        lemma_sorted_len(keyed_spec, keyed_spec.len() as int);
        lemma_sorted_members(keyed_spec, keyed_spec.len() as int);
    }
    let ghost result = Seq::new(sorted@.len(), |j: int| c[sorted@[j].1 as int]);
    let mut r: Vec<WorkerCapacity> = Vec::new();
    let mut j: usize = 0;
    while j < sorted.len()
        invariant
            c == all@,
            j <= sorted@.len(),
            sorted@ == key_sorted(keyed_spec),
            sorted@.len() == c.len(),
            keyed_spec == Seq::new(c.len(), |i: int| (capacity_key(c[i]), i as usize)),
            forall|jj: int| 0 <= jj < sorted@.len() ==> exists|i: int| 0 <= i < c.len() && #[trigger] sorted@[jj] == keyed_spec[i],
            result == Seq::new(sorted@.len(), |jj: int| c[sorted@[jj].1 as int]),
            r@ == result.take(j as int),
        decreases sorted@.len() - j,
    {
        let ghost i0 = choose|i: int| 0 <= i < c.len() && sorted@[j as int] == keyed_spec[i];
        assert(sorted@[j as int].1 == i0 as usize);
        r.push(all[sorted[j].1]);
        assert(result.take(j + 1) =~= result.take(j as int).push(result[j as int]));
        j = j + 1;
    }
    assert(result.take(result.len() as int) =~= result);
    proof {
        assert(c.len() <= usize::MAX);
        law_snapshot_capacities_follow_configs(workers@, block_size);
        assert(r@ == capacity_snapshot(workers@, block_size));
    }
    (r, missing)
}

/// A capacity source that recomputes only when the workers changed, and
/// reports missing capacity once.
pub struct CapacityCache {
    block_size: u32,
    cached: Option<Vec<WorkerCapacity>>,
    warned_missing_capacity: bool,
}

impl CapacityCache {
    pub closed spec fn cached_view(&self) -> Option<Seq<WorkerCapacity>> {
        match self.cached {
            Some(v) => Some(v@),
            None => None,
        }
    }

    pub closed spec fn block(&self) -> u32 {
        self.block_size
    }

    pub closed spec fn warned(&self) -> bool {
        self.warned_missing_capacity
    }

    pub fn new(block_size: u32) -> (r: Self)
        ensures
            r.block() == block_size,
            r.cached_view() is None,
            !r.warned(),
    {
        CapacityCache { block_size, cached: None, warned_missing_capacity: false }
    }

    /// Whether missing capacity has been reported.
    pub fn warned_missing_capacity(&self) -> (r: bool)
        ensures
            r == self.warned(),
    {
        self.warned_missing_capacity
    }

    /// The capacities of `workers`: the cached ones while the workers have
    /// not `changed`, otherwise recomputed (and cached). Returns also whether
    /// this call is the first to find workers without usable capacity.
    pub fn snapshot(&mut self, changed: bool, workers: &[(u64, WorkerConfigData)]) -> (r: (Vec<WorkerCapacity>, bool))
        ensures
            final(self).block() == old(self).block(),
            (old(self).cached_view() is Some && !changed) ==> r.0@ == old(self).cached_view()->0 && !r.1
                && final(self).warned() == old(self).warned() && final(self).cached_view() == old(self).cached_view(),
            !(old(self).cached_view() is Some && !changed) ==> {
                &&& r.0@ == capacity_snapshot(workers@, old(self).block())
                &&& final(self).cached_view() == Some(r.0@)
                &&& r.1 == (missing_upto(workers@, workers@.len() as int) > 0 && !old(self).warned())
                &&& final(self).warned() == (old(self).warned() || missing_upto(workers@, workers@.len() as int) > 0)
            },
    {
        if !changed {
            match &self.cached {
                Some(v) => {
                    let copy = copy_capacities(v);
                    return (copy, false);
                },
                None => {},
            }
        }
        let (caps, missing) = capacity_snapshot_of(workers, self.block_size);
        let first_warning = missing > 0 && !self.warned_missing_capacity;
        if missing > 0 {
            self.warned_missing_capacity = true;
        }
        let copy = copy_capacities(&caps);
        self.cached = Some(caps);
        (copy, first_warning)
    }
}

fn copy_capacities(v: &Vec<WorkerCapacity>) -> (r: Vec<WorkerCapacity>)
    ensures
        r@ == v@,
{
    let mut r: Vec<WorkerCapacity> = Vec::new();
    let mut i: usize = 0;
    while i < v.len()
        invariant
            i <= v@.len(),
            r@ == v@.take(i as int),
        decreases v@.len() - i,
    {
        r.push(v[i]);
        assert(v@.take(i + 1) =~= v@.take(i as int).push(v@[i as int]));
        i = i + 1;
    }
    assert(v@.take(v@.len() as int) =~= v@);
    r
}

} // verus!
