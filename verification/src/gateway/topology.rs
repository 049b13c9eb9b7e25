//! Worker registration: the selector-catalog entry each discovered raw vLLM
//! worker becomes, and the catalog of entries pushed to the selector.

use vstd::prelude::*;
use super::pods::RawWorker;
use crate::text::{trim, trimmed};

verus! {

/// The parts of the standalone picker configuration that registration reads.
#[derive(Clone, Debug)]
pub struct StandaloneConfig {
    pub model_name: String,
    pub block_size: u32,
    pub data_parallel_size: u32,
    pub total_kv_blocks: Option<u64>,
    pub max_num_batched_tokens: Option<u64>,
}

/// Configuration-derived defaults applied to every worker registration (raw
/// vLLM pods carry no model card).
#[derive(Clone, Debug)]
pub struct RegistrationDefaults {
    pub model_name: String,
    pub block_size: u32,
    pub data_parallel_size: u32,
    pub total_kv_blocks: Option<u64>,
    pub max_num_batched_tokens: Option<u64>,
}

impl RegistrationDefaults {
    /// The defaults of a picker configuration.
    pub fn from_config(cfg: &StandaloneConfig) -> (r: Self)
        ensures
            r.model_name@ == cfg.model_name@,
            r.block_size == cfg.block_size,
            r.data_parallel_size == cfg.data_parallel_size,
            r.total_kv_blocks == cfg.total_kv_blocks,
            r.max_num_batched_tokens == cfg.max_num_batched_tokens,
    {
        RegistrationDefaults {
            model_name: cfg.model_name.clone(),
            block_size: cfg.block_size,
            data_parallel_size: cfg.data_parallel_size,
            total_kv_blocks: cfg.total_kv_blocks,
            max_num_batched_tokens: cfg.max_num_batched_tokens,
        }
    }
}

/// A worker the picker registers into the selector.
#[derive(Clone, Debug)]
pub struct WorkerRegistration {
    pub worker_id: u64,
    pub model_name: String,
    pub endpoint: String,
    pub block_size: u32,
    pub data_parallel_size: u32,
    /// KV-event endpoint per data-parallel rank.
    pub kv_events_endpoints: Vec<(u32, String)>,
    pub replay_endpoint: Option<String>,
    pub total_kv_blocks: Option<u64>,
    pub max_num_batched_tokens: Option<u64>,
    pub stable_routing_id: Option<String>,
}

/// Observability overlap summary (matched token counts).
#[derive(Clone, Debug)]
pub struct OverlapSummary {
    pub longest_matched: u32,
    pub gpu: u32,
    pub cpu: u32,
    pub disk: u32,
}

/// The selector's choice for a prompt.
#[derive(Clone, Debug)]
pub struct SelectResponse {
    /// Booking key the selector recorded (echoes the request's reservation id).
    pub reservation_id: String,
    pub worker_id: u64,
    pub endpoint: String,
    pub block_size: u32,
    pub overlap: OverlapSummary,
    pub effective_prefill_tokens: usize,
}

/// A registration as plain values.
pub struct RegistrationView {
    pub worker_id: u64,
    pub model_name: Seq<char>,
    pub endpoint: Seq<char>,
    pub block_size: u32,
    pub data_parallel_size: u32,
    pub kv_events_endpoints: Seq<(u32, Seq<char>)>,
    pub replay_endpoint: Option<Seq<char>>,
    pub total_kv_blocks: Option<u64>,
    pub max_num_batched_tokens: Option<u64>,
    pub stable_routing_id: Option<Seq<char>>,
}

pub open spec fn opt_view(o: Option<String>) -> Option<Seq<char>> {
    match o {
        Some(s) => Some(s@),
        None => None,
    }
}

pub open spec fn registration_view(r: WorkerRegistration) -> RegistrationView {
    RegistrationView {
        worker_id: r.worker_id,
        model_name: r.model_name@,
        endpoint: r.endpoint@,
        block_size: r.block_size,
        data_parallel_size: r.data_parallel_size,
        kv_events_endpoints: r.kv_events_endpoints@.map_values(|e: (u32, String)| (e.0, e.1@)),
        replay_endpoint: opt_view(r.replay_endpoint),
        total_kv_blocks: r.total_kv_blocks,
        max_num_batched_tokens: r.max_num_batched_tokens,
        stable_routing_id: opt_view(r.stable_routing_id),
    }
}

/// The registration of a discovered worker: configuration defaults plus the
/// worker's endpoints, with rank 0 on the pod's KV-event socket.
pub open spec fn registration_of(w: RawWorker, d: RegistrationDefaults) -> RegistrationView {
    RegistrationView {
        worker_id: w.worker_id,
        model_name: d.model_name@,
        endpoint: w.http_endpoint@,
        block_size: d.block_size,
        data_parallel_size: d.data_parallel_size,
        kv_events_endpoints: seq![(0u32, w.kv_events_endpoint@)],
        replay_endpoint: opt_view(w.replay_endpoint),
        total_kv_blocks: d.total_kv_blocks,
        max_num_batched_tokens: d.max_num_batched_tokens,
        stable_routing_id: Some(w.stable_routing_id@),
    }
}

fn clone_opt(o: &Option<String>) -> (r: Option<String>)
    ensures
        opt_view(r) == opt_view(*o),
{
    match o {
        Some(s) => Some(s.clone()),
        None => None,
    }
}

/// Normalizes a discovered worker into a selector registration.
pub fn build_registration(w: &RawWorker, d: &RegistrationDefaults) -> (r: WorkerRegistration)
    ensures
        registration_view(r) == registration_of(*w, *d),
{
    let mut kv: Vec<(u32, String)> = Vec::new();
    kv.push((0u32, w.kv_events_endpoint.clone()));
    let r = WorkerRegistration {
        worker_id: w.worker_id,
        model_name: d.model_name.clone(),
        endpoint: w.http_endpoint.clone(),
        block_size: d.block_size,
        data_parallel_size: d.data_parallel_size,
        kv_events_endpoints: kv,
        replay_endpoint: clone_opt(&w.replay_endpoint),
        total_kv_blocks: d.total_kv_blocks,
        max_num_batched_tokens: d.max_num_batched_tokens,
        stable_routing_id: Some(w.stable_routing_id.clone()),
    };
    assert(registration_view(r).kv_events_endpoints =~= seq![(0u32, w.kv_events_endpoint@)]);
    r
}

impl WorkerRegistration {
    /// The endpoint registered for data-parallel rank `rank`, if any.
    pub fn kv_events_endpoint(&self, rank: u32) -> (r: Option<String>)
        ensures
            match r {
                Some(e) => exists|i: int|
                    0 <= i < self.kv_events_endpoints@.len() && #[trigger] self.kv_events_endpoints@[i].0 == rank
                        && self.kv_events_endpoints@[i].1@ == e@,
                None => forall|i: int|
                    0 <= i < self.kv_events_endpoints@.len() ==> #[trigger] self.kv_events_endpoints@[i].0 != rank,
            },
    {
        let mut i: usize = 0;
        while i < self.kv_events_endpoints.len()
            invariant
                i <= self.kv_events_endpoints@.len(),
                forall|j: int| 0 <= j < i ==> #[trigger] self.kv_events_endpoints@[j].0 != rank,
            decreases self.kv_events_endpoints@.len() - i,
        {
            if self.kv_events_endpoints[i].0 == rank {
                return Some(self.kv_events_endpoints[i].1.clone());
            }
            i = i + 1;
        }
        None
    }
}

fn opt_equal(a: &Option<String>, b: &Option<String>) -> (r: bool)
    ensures
        r == (opt_view(*a) == opt_view(*b)),
{
    match (a, b) {
        (Some(x), Some(y)) => *x == *y,
        (None, None) => true,
        _ => false,
    }
}

fn endpoints_equal(a: &Vec<(u32, String)>, b: &Vec<(u32, String)>) -> (r: bool)
    ensures
        r == (a@.map_values(|e: (u32, String)| (e.0, e.1@)) == b@.map_values(|e: (u32, String)| (e.0, e.1@))),
{
    let ghost va = a@.map_values(|e: (u32, String)| (e.0, e.1@));
    let ghost vb = b@.map_values(|e: (u32, String)| (e.0, e.1@));
    if a.len() != b.len() {
        assert(va.len() != vb.len());
        return false;
    }
    let mut i: usize = 0;
    while i < a.len()
        invariant
            a@.len() == b@.len(),
            i <= a@.len(),
            va == a@.map_values(|e: (u32, String)| (e.0, e.1@)),
            vb == b@.map_values(|e: (u32, String)| (e.0, e.1@)),
            forall|j: int| 0 <= j < i ==> va[j] == vb[j],
        decreases a@.len() - i,
    {
        if a[i].0 != b[i].0 || a[i].1 != b[i].1 {
            assert(va[i as int] != vb[i as int]);
            return false;
        }
        i = i + 1;
    }
    assert(va =~= vb);
    true
}

fn copy_endpoints(v: &Vec<(u32, String)>) -> (r: Vec<(u32, String)>)
    ensures
        r@.map_values(|e: (u32, String)| (e.0, e.1@)) == v@.map_values(|e: (u32, String)| (e.0, e.1@)),
{
    let ghost vv = v@.map_values(|e: (u32, String)| (e.0, e.1@));
    let mut r: Vec<(u32, String)> = Vec::new();
    let mut i: usize = 0;
    while i < v.len()
        invariant
            i <= v@.len(),
            r@.len() == i,
            vv == v@.map_values(|e: (u32, String)| (e.0, e.1@)),
            forall|j: int| 0 <= j < i ==> (#[trigger] r@[j]).0 == v@[j].0 && r@[j].1@ == v@[j].1@,
        decreases v@.len() - i,
    {
        r.push((v[i].0, v[i].1.clone()));
        i = i + 1;
    }
    assert(r@.map_values(|e: (u32, String)| (e.0, e.1@)) =~= vv);
    r
}

/// A copy of `r` with the same contents.
pub fn copy_registration(r: &WorkerRegistration) -> (c: WorkerRegistration)
    ensures
        registration_view(c) == registration_view(*r),
{
    WorkerRegistration {
        worker_id: r.worker_id,
        model_name: r.model_name.clone(),
        endpoint: r.endpoint.clone(),
        block_size: r.block_size,
        data_parallel_size: r.data_parallel_size,
        kv_events_endpoints: copy_endpoints(&r.kv_events_endpoints),
        replay_endpoint: clone_opt(&r.replay_endpoint),
        total_kv_blocks: r.total_kv_blocks,
        max_num_batched_tokens: r.max_num_batched_tokens,
        stable_routing_id: clone_opt(&r.stable_routing_id),
    }
}

/// Whether two registrations are equal.
pub fn registration_equal(a: &WorkerRegistration, b: &WorkerRegistration) -> (r: bool)
    ensures
        r == (registration_view(*a) == registration_view(*b)),
{
    a.worker_id == b.worker_id && a.model_name == b.model_name && a.endpoint == b.endpoint && a.block_size
        == b.block_size && a.data_parallel_size == b.data_parallel_size && endpoints_equal(
        &a.kv_events_endpoints,
        &b.kv_events_endpoints,
    ) && opt_equal(&a.replay_endpoint, &b.replay_endpoint) && a.total_kv_blocks == b.total_kv_blocks
        && a.max_num_batched_tokens == b.max_num_batched_tokens && opt_equal(
        &a.stable_routing_id,
        &b.stable_routing_id,
    )
}

/// The registration of worker `id` among `s` from position `i` on.
pub open spec fn entry_from(s: Seq<RegistrationView>, id: u64, i: int) -> Option<RegistrationView>
    decreases s.len() - i,
{
    if i < 0 || i >= s.len() {
        None
    } else if s[i].worker_id == id {
        Some(s[i])
    } else {
        entry_from(s, id, i + 1)
    }
}

/// The catalog last pushed into the selector, keyed by worker id. Lets a
/// reconcile skip upserts that change nothing.
#[derive(Clone)]
pub struct WorkerCatalog {
    entries: Vec<WorkerRegistration>,
}

pub open spec fn regs_view(s: Seq<WorkerRegistration>) -> Seq<RegistrationView> {
    s.map_values(|r: WorkerRegistration| registration_view(r))
}

/// No two registrations in `c` are for the same worker.
pub open spec fn ids_unique(c: Seq<RegistrationView>) -> bool {
    forall|a: int, b: int| 0 <= a < c.len() && 0 <= b < c.len() && a != b ==> c[a].worker_id != c[b].worker_id
}

pub open spec fn has_id(c: Seq<RegistrationView>, id: u64) -> bool {
    exists|k: int| 0 <= k < c.len() && c[k].worker_id == id
}

pub open spec fn id_pos(c: Seq<RegistrationView>, id: u64) -> int {
    choose|k: int| 0 <= k < c.len() && c[k].worker_id == id
}

/// The catalog `c` after recording `x`: its worker's entry replaced in place,
/// or `x` appended for a new worker.
pub open spec fn record_view(c: Seq<RegistrationView>, x: RegistrationView) -> Seq<RegistrationView> {
    if has_id(c, x.worker_id) {
        c.update(id_pos(c, x.worker_id), x)
    } else {
        c.push(x)
    }
}

/// The catalog `c` after forgetting worker `id`.
pub open spec fn forget_view(c: Seq<RegistrationView>, id: u64) -> Seq<RegistrationView> {
    if has_id(c, id) {
        c.remove(id_pos(c, id))
    } else {
        c
    }
}

/// The next change that brings the selector's catalog to the desired one.
#[derive(Clone, Copy, Debug, PartialEq, Eq, Structural)]
pub enum SyncAction {
    /// Upsert the registration at this position of the desired list.
    Upsert(usize),
    /// Delete this worker.
    Delete(u64),
}

/// The catalog `c` holds exactly the desired registrations `d`: for every
/// worker, what it records is the first registration of that worker in `d`.
pub open spec fn synced(c: Seq<RegistrationView>, d: Seq<RegistrationView>) -> bool {
    forall|id: u64| #[trigger] entry_from(c, id, 0) == entry_from(d, id, 0)
}

/// The first registration of worker `id` from position `j` on is the one at
/// the first position holding that worker.
proof fn lemma_entry_first(s: Seq<RegistrationView>, id: u64, j: int)
    requires
        0 <= j,
        entry_from(s, id, j) is Some,
    ensures
        exists|k: int|
            j <= k < s.len() && s[k].worker_id == id && entry_from(s, id, j) == Some(s[k]) && (forall|m: int|
                j <= m < k ==> s[m].worker_id != id),
    decreases s.len() - j,
{
    if j < s.len() && s[j].worker_id != id {
        lemma_entry_first(s, id, j + 1);
        let k = choose|k: int|
            j + 1 <= k < s.len() && s[k].worker_id == id && entry_from(s, id, j + 1) == Some(s[k]) && (forall|
                m: int,
            | j + 1 <= m < k ==> s[m].worker_id != id);
        assert(forall|m: int| j <= m < k ==> s[m].worker_id != id);
    }
}

/// The first position of worker `id` in `regs`, if any.
fn first_position(regs: &[WorkerRegistration], id: u64) -> (r: Option<usize>)
    ensures
        match r {
            Some(k) => k < regs@.len() && regs@[k as int].worker_id == id && entry_from(regs_view(regs@), id, 0)
                == Some(registration_view(regs@[k as int])) && forall|m: int|
                0 <= m < k ==> regs@[m].worker_id != id,
            None => entry_from(regs_view(regs@), id, 0) is None,
        },
{
    let ghost d = regs_view(regs@);
    let mut k: usize = 0;
    while k < regs.len()
        invariant
            k <= regs@.len(),
            d == regs_view(regs@),
            entry_from(d, id, 0) == entry_from(d, id, k as int),
            forall|m: int| 0 <= m < k ==> regs@[m].worker_id != id,
        decreases regs@.len() - k,
    {
        assert(d[k as int] == registration_view(regs@[k as int]));
        if regs[k].worker_id == id {
            return Some(k);
        }
        k = k + 1;
    }
    None
}

impl WorkerCatalog {
    /// The registrations, in the order they were first recorded.
    pub closed spec fn view(&self) -> Seq<RegistrationView> {
        regs_view(self.entries@)
    }

    /// Worker ids are distinct.
    pub closed spec fn wf(&self) -> bool {
        forall|i: int, j: int|
            0 <= i < self.entries@.len() && 0 <= j < self.entries@.len() && i != j
                ==> self.entries@[i].worker_id != self.entries@[j].worker_id
    }

    /// The registration of worker `id`.
    pub open spec fn get(&self, id: u64) -> Option<RegistrationView> {
        entry_from(self.view(), id, 0)
    }

    pub fn new() -> (c: Self)
        ensures
            c.wf(),
            c.view() == Seq::<RegistrationView>::empty(),
            ids_unique(c.view()),
    {
        let c = WorkerCatalog { entries: Vec::new() };
        assert(c.view() =~= Seq::<RegistrationView>::empty());
        c
    }

    /// The catalog's view holds each worker at most once.
    pub proof fn lemma_unique(&self)
        requires
            self.wf(),
        ensures
            ids_unique(self.view()),
    {
        let v = self.view();
        assert forall|a: int, b: int| 0 <= a < v.len() && 0 <= b < v.len() && a != b implies v[a].worker_id
            != v[b].worker_id by {
            assert(v[a] == registration_view(self.entries@[a]));
            assert(v[b] == registration_view(self.entries@[b]));
        }
    }

    fn position(&self, id: u64) -> (r: Option<usize>)
        ensures
            match r {
                Some(i) => i < self.view().len() && self.view()[i as int].worker_id == id
                    && entry_from(self.view(), id, 0) == Some(self.view()[i as int]),
                None => entry_from(self.view(), id, 0) is None,
            },
    {
        let ghost v = self.view();
        let mut i: usize = 0;
        while i < self.entries.len()
            invariant
                v == self.view(),
                i <= self.entries@.len(),
                v.len() == self.entries@.len(),
                entry_from(v, id, 0) == entry_from(v, id, i as int),
            decreases self.entries@.len() - i,
        {
            assert(v[i as int] == registration_view(self.entries@[i as int]));
            if self.entries[i].worker_id == id {
                return Some(i);
            }
            i = i + 1;
        }
        None
    }

    /// Whether `reg` differs from the recorded registration of its worker
    /// (or the worker has none), so the selector needs an upsert.
    pub fn needs_upsert(&self, reg: &WorkerRegistration) -> (r: bool)
        ensures
            r == (self.get(reg.worker_id) != Some(registration_view(*reg))),
    {
        match self.position(reg.worker_id) {
            None => true,
            Some(i) => {
                assert(self.view()[i as int] == registration_view(self.entries@[i as int]));
                !registration_equal(&self.entries[i], reg)
            },
        }
    }

    /// Records `reg` as its worker's registration.
    pub fn record(&mut self, reg: WorkerRegistration)
        requires
            old(self).wf(),
        ensures
            final(self).wf(),
            final(self).get(reg.worker_id) == Some(registration_view(reg)),
            forall|id: u64| id != reg.worker_id ==> #[trigger] final(self).get(id) == old(self).get(id),
            final(self).view() == record_view(old(self).view(), registration_view(reg)),
            ids_unique(final(self).view()),
    {
        let ghost rv = registration_view(reg);
        let ghost c0 = self.view();
        proof {
            self.lemma_unique();
        }
        let id = reg.worker_id;
        match self.position(id) {
            Some(i) => {
                self.entries.set(i, reg);
                proof {
                    lemma_entry_update(regs_view(old(self).entries@), i as int, rv);
                    assert(self.view() =~= regs_view(old(self).entries@).update(i as int, rv));
                    assert(has_id(c0, id));
                    assert(id_pos(c0, id) == i);
                }
            },
            None => {
                self.entries.push(reg);
                proof {
                    lemma_entry_push(regs_view(old(self).entries@), rv);
                    assert(self.view() =~= regs_view(old(self).entries@).push(rv));
                    if has_id(c0, id) {
                        let k = choose|k: int| 0 <= k < c0.len() && c0[k].worker_id == id;
                        lemma_entry_present(c0, k, 0);
                    }
                }
            },
        }
        proof {
            let v = self.view();
            assert forall|a: int, b: int|
                0 <= a < self.entries@.len() && 0 <= b < self.entries@.len() && a != b implies self.entries@[a].worker_id
                != self.entries@[b].worker_id by {
                assert(v[a] == registration_view(self.entries@[a]));
                assert(v[b] == registration_view(self.entries@[b]));
            }
        }
    }

    /// The recorded workers that are not in `desired`, in catalog order.
    pub fn stale_ids(&self, desired: &[u64]) -> (r: Vec<u64>)
        ensures
            forall|k: int| 0 <= k < r@.len() ==> self.get(#[trigger] r@[k]) is Some && !desired@.contains(r@[k]),
            forall|id: u64| self.get(id) is Some && !desired@.contains(id) ==> #[trigger] r@.contains(id),
    {
        let mut r: Vec<u64> = Vec::new();
        let mut i: usize = 0;
        while i < self.entries.len()
            invariant
                i <= self.entries@.len(),
                forall|k: int| 0 <= k < r@.len() ==> self.get(#[trigger] r@[k]) is Some && !desired@.contains(r@[k]),
                forall|j: int|
                    0 <= j < i && !desired@.contains(#[trigger] self.entries@[j].worker_id) ==> r@.contains(
                        self.entries@[j].worker_id,
                    ),
            decreases self.entries@.len() - i,
        {
            let id = self.entries[i].worker_id;
            let mut found = false;
            let mut k: usize = 0;
            while k < desired.len()
                invariant
                    k <= desired@.len(),
                    found == exists|t: int| 0 <= t < k && desired@[t] == id,
                decreases desired@.len() - k,
            {
                if desired[k] == id {
                    found = true;
                }
                k = k + 1;
            }
            if !found {
                proof {
                    lemma_entry_present(self.view(), i as int, 0);
                }
                let ghost r0 = r@;
                r.push(id);
                assert(r@[r0.len() as int] == id);
                assert forall|j: int|
                    0 <= j < i + 1 && !desired@.contains(#[trigger] self.entries@[j].worker_id) implies r@.contains(
                    self.entries@[j].worker_id,
                ) by {
                    if j < i {
                        let t = choose|t: int| 0 <= t < r0.len() && r0[t] == self.entries@[j].worker_id;
                        assert(r@[t] == r0[t]);
                    }
                }
            } else {
                assert(desired@.contains(id));
            }
            i = i + 1;
        }
        assert forall|id: u64| self.get(id) is Some && !desired@.contains(id) implies #[trigger] r@.contains(id) by {
            lemma_entry_found(self.view(), id, 0);
            let j = choose|j: int| 0 <= j < self.view().len() && self.view()[j].worker_id == id;
            assert(self.view()[j] == registration_view(self.entries@[j]));
        }
        r
    }

    /// The next upsert or deletion that brings the catalog to `desired`, or
    /// `None` once the catalog holds exactly the desired registrations (so
    /// syncing again changes nothing). Upserts come first, in desired order,
    /// for the first registration of each worker; then deletions, in catalog
    /// order.
    pub fn next_sync_action(&self, desired: &[WorkerRegistration]) -> (r: Option<SyncAction>)
        requires
            self.wf(),
        ensures
            r is None <==> synced(self.view(), regs_view(desired@)),
            r matches Some(SyncAction::Upsert(i)) ==> i < desired@.len() && entry_from(
                regs_view(desired@),
                desired@[i as int].worker_id,
                0,
            ) == Some(registration_view(desired@[i as int])) && self.get(desired@[i as int].worker_id) != Some(
                registration_view(desired@[i as int]),
            ),
            r matches Some(SyncAction::Delete(id)) ==> self.get(id) is Some && entry_from(regs_view(desired@), id, 0)
                is None,
    {
        let ghost d = regs_view(desired@);
        let mut i: usize = 0;
        while i < desired.len()
            invariant
                i <= desired@.len(),
                d == regs_view(desired@),
                forall|j: int|
                    0 <= j < i && entry_from(d, d[j].worker_id, 0) == Some(d[j]) ==> self.get(#[trigger] d[j].worker_id)
                        == Some(d[j]),
            decreases desired@.len() - i,
        {
            assert(d[i as int] == registration_view(desired@[i as int]));
            match first_position(desired, desired[i].worker_id) {
                Some(k) => {
                    if k == i {
                        if self.needs_upsert(&desired[i]) {
                            return Some(SyncAction::Upsert(i));
                        }
                    } else {
                        proof {
                            assert(d[k as int] == registration_view(desired@[k as int]));
                            lemma_entry_first(d, d[i as int].worker_id, 0);
                            let f = choose|f: int|
                                0 <= f < d.len() && d[f].worker_id == d[i as int].worker_id && entry_from(
                                    d,
                                    d[i as int].worker_id,
                                    0,
                                ) == Some(d[f]) && (forall|m: int| 0 <= m < f ==> d[m].worker_id != d[i as int].worker_id);
                            assert(f <= i);
                            assert(d[f].worker_id == desired@[f].worker_id);
                            assert(f == k);
                            if entry_from(d, d[i as int].worker_id, 0) == Some(d[i as int]) {
                                assert(d[f] == d[i as int]);
                                assert(self.get(d[f].worker_id) == Some(d[f]));
                            }
                        }
                    }
                },
                None => {
                    proof {
                        lemma_entry_present(d, i as int, 0);
                    }
                },
            }
            i = i + 1;
        }
        let ghost c = self.view();
        let mut k: usize = 0;
        while k < self.entries.len()
            invariant
                k <= self.entries@.len(),
                c == self.view(),
                d == regs_view(desired@),
                forall|j: int| 0 <= j < k ==> entry_from(d, #[trigger] c[j].worker_id, 0) is Some,
                forall|j: int|
                    0 <= j < d.len() && entry_from(d, d[j].worker_id, 0) == Some(d[j]) ==> self.get(#[trigger] d[j].worker_id)
                        == Some(d[j]),
            decreases self.entries@.len() - k,
        {
            assert(c[k as int] == registration_view(self.entries@[k as int]));
            let id = self.entries[k].worker_id;
            match first_position(desired, id) {
                None => {
                    proof {
                        lemma_entry_present(c, k as int, 0);
                    }
                    return Some(SyncAction::Delete(id));
                },
                Some(_) => {},
            }
            k = k + 1;
        }
        proof {
            assert forall|id: u64| #[trigger] entry_from(c, id, 0) == entry_from(d, id, 0) by {
                match entry_from(d, id, 0) {
                    Some(x) => {
                        lemma_entry_first(d, id, 0);
                        let f = choose|f: int|
                            0 <= f < d.len() && d[f].worker_id == id && entry_from(d, id, 0) == Some(d[f]) && (forall|
                                m: int,
                            | 0 <= m < f ==> d[m].worker_id != id);
                        assert(self.get(d[f].worker_id) == Some(d[f]));
                    },
                    None => {
                        if entry_from(c, id, 0) is Some {
                            lemma_entry_found(c, id, 0);
                            let j = choose|j: int| 0 <= j < c.len() && c[j].worker_id == id;
                            assert(entry_from(d, c[j].worker_id, 0) is Some);
                        }
                    },
                }
            }
        }
        None
    }

    /// Records that the selector took action `a` for the desired
    /// registrations: an upsert records the registration at its position, a
    /// deletion forgets the worker.
    pub fn apply_sync_action(&mut self, desired: &[WorkerRegistration], a: SyncAction)
        requires
            old(self).wf(),
            a matches SyncAction::Upsert(i) ==> i < desired@.len(),
        ensures
            final(self).wf(),
            final(self).view() == apply_sync(old(self).view(), regs_view(desired@), a),
            ids_unique(final(self).view()),
    {
        match a {
            SyncAction::Upsert(i) => {
                let reg = copy_registration(&desired[i]);
                self.record(reg);
            },
            SyncAction::Delete(id) => {
                self.forget(id);
            },
        }
    }

    /// The upserts and deletions that bring the catalog to `desired` when the
    /// selector takes each of them, in the order they are issued; the
    /// catalog then holds exactly the desired registrations. On a catalog
    /// that already holds them, nothing is issued and nothing changes, so a
    /// second sync to the same registrations issues nothing.
    pub fn sync_to(&mut self, desired: &[WorkerRegistration]) -> (r: Vec<SyncAction>)
        requires
            old(self).wf(),
        ensures
            final(self).wf(),
            synced(final(self).view(), regs_view(desired@)),
            r@.len() <= sync_pending(old(self).view(), regs_view(desired@)),
            synced(old(self).view(), regs_view(desired@)) ==> r@.len() == 0 && final(self).view() == old(self).view(),
    {
        let ghost d = regs_view(desired@);
        let ghost c0 = self.view();
        let mut r: Vec<SyncAction> = Vec::new();
        proof {
            self.lemma_unique();
        }
        loop
            invariant
                self.wf(),
                d == regs_view(desired@),
                c0 == old(self).view(),
                ids_unique(self.view()),
                r@.len() + sync_pending(self.view(), d) <= sync_pending(c0, d),
                r@.len() == 0 ==> self.view() == c0,
                synced(c0, d) ==> r@.len() == 0,
            ensures
                self.wf(),
                synced(self.view(), d),
                r@.len() <= sync_pending(c0, d),
                synced(c0, d) ==> r@.len() == 0 && self.view() == c0,
            decreases sync_pending(self.view(), d),
        {
            match self.next_sync_action(desired) {
                None => {
                    break;
                },
                Some(a) => {
                    let ghost c1 = self.view();
                    proof {
                        if let SyncAction::Upsert(i) = a {
                            assert(d[i as int] == registration_view(desired@[i as int]));
                        }
                        law_sync_action_progresses(c1, d, a);
                    }
                    self.apply_sync_action(desired, a);
                    r.push(a);
                },
            }
        }
        r
    }

    /// Forgets the registration of worker `id`.
    pub fn forget(&mut self, id: u64)
        requires
            old(self).wf(),
        ensures
            final(self).wf(),
            final(self).get(id) is None,
            forall|k: u64| k != id ==> #[trigger] final(self).get(k) == old(self).get(k),
            final(self).view() == forget_view(old(self).view(), id),
            ids_unique(final(self).view()),
    {
        let ghost c0 = self.view();
        proof {
            self.lemma_unique();
        }
        match self.position(id) {
            None => {
                assert forall|k: u64| k != id implies #[trigger] self.get(k) == old(self).get(k) by {}
                proof {
                    if has_id(c0, id) {
                        let k = choose|k: int| 0 <= k < c0.len() && c0[k].worker_id == id;
                        lemma_entry_present(c0, k, 0);
                    }
                }
            },
            Some(i) => {
                self.entries.remove(i);
                proof {
                    lemma_entry_remove(regs_view(old(self).entries@), i as int);
                    assert(self.view() =~= regs_view(old(self).entries@).remove(i as int));
                    assert(has_id(c0, id));
                    assert(id_pos(c0, id) == i);
                    let v = self.view();
                    assert forall|a: int, b: int|
                        0 <= a < self.entries@.len() && 0 <= b < self.entries@.len() && a != b implies self.entries@[a].worker_id
                        != self.entries@[b].worker_id by {
                        assert(v[a] == registration_view(self.entries@[a]));
                        assert(v[b] == registration_view(self.entries@[b]));
                    }
                }
            },
        }
    }
}

proof fn lemma_entry_present(s: Seq<RegistrationView>, i: int, j: int)
    requires
        0 <= j <= i < s.len(),
    ensures
        entry_from(s, s[i].worker_id, j) is Some,
    decreases i - j,
{
    if s[j].worker_id != s[i].worker_id {
        lemma_entry_present(s, i, j + 1);
    }
}

proof fn lemma_entry_found(s: Seq<RegistrationView>, id: u64, j: int)
    requires
        0 <= j,
        entry_from(s, id, j) is Some,
    ensures
        exists|k: int| j <= k < s.len() && s[k].worker_id == id,
        entry_from(s, id, j)->0.worker_id == id,
    decreases s.len() - j,
{
    if j < s.len() && s[j].worker_id != id {
        lemma_entry_found(s, id, j + 1);
    }
}

/// Ids distinct in `s` give each id at most one entry; `entry_from` finds it.
proof fn lemma_entry_at(s: Seq<RegistrationView>, i: int, j: int)
    requires
        0 <= j <= i < s.len(),
        forall|a: int, b: int| 0 <= a < s.len() && 0 <= b < s.len() && a != b ==> s[a].worker_id != s[b].worker_id,
    ensures
        entry_from(s, s[i].worker_id, j) == Some(s[i]),
    decreases i - j,
{
    if j < i {
        lemma_entry_at(s, i, j + 1);
    }
}

proof fn lemma_entry_absent(s: Seq<RegistrationView>, id: u64, j: int)
    requires
        0 <= j,
        forall|k: int| j <= k < s.len() ==> s[k].worker_id != id,
    ensures
        entry_from(s, id, j) is None,
    decreases s.len() - j,
{
    if j < s.len() {
        lemma_entry_absent(s, id, j + 1);
    }
}

proof fn lemma_entry_lookup(s: Seq<RegistrationView>, id: u64)
    requires
        forall|a: int, b: int| 0 <= a < s.len() && 0 <= b < s.len() && a != b ==> s[a].worker_id != s[b].worker_id,
    ensures
        (exists|k: int| 0 <= k < s.len() && s[k].worker_id == id) ==> entry_from(s, id, 0) == Some(
            s[choose|k: int| 0 <= k < s.len() && s[k].worker_id == id],
        ),
        !(exists|k: int| 0 <= k < s.len() && s[k].worker_id == id) ==> entry_from(s, id, 0) is None,
{
    if exists|k: int| 0 <= k < s.len() && s[k].worker_id == id {
        let k = choose|k: int| 0 <= k < s.len() && s[k].worker_id == id;
        lemma_entry_at(s, k, 0);
    } else {
        lemma_entry_absent(s, id, 0);
    }
}

proof fn lemma_entry_update(s: Seq<RegistrationView>, i: int, v: RegistrationView)
    requires
        0 <= i < s.len(),
        v.worker_id == s[i].worker_id,
        forall|a: int, b: int| 0 <= a < s.len() && 0 <= b < s.len() && a != b ==> s[a].worker_id != s[b].worker_id,
    ensures
        forall|a: int, b: int|
            0 <= a < s.len() && 0 <= b < s.len() && a != b ==> s.update(i, v)[a].worker_id != s.update(
                i,
                v,
            )[b].worker_id,
        entry_from(s.update(i, v), v.worker_id, 0) == Some(v),
        forall|id: u64| id != v.worker_id ==> #[trigger] entry_from(s.update(i, v), id, 0) == entry_from(s, id, 0),
{
    let t = s.update(i, v);
    assert forall|a: int, b: int| 0 <= a < t.len() && 0 <= b < t.len() && a != b implies t[a].worker_id != t[b].worker_id by {
        assert(t[a].worker_id == s[a].worker_id);
        assert(t[b].worker_id == s[b].worker_id);
    }
    lemma_entry_at(t, i, 0);
    assert forall|id: u64| id != v.worker_id implies #[trigger] entry_from(t, id, 0) == entry_from(s, id, 0) by {
        lemma_entry_lookup(s, id);
        lemma_entry_lookup(t, id);
        if exists|k: int| 0 <= k < s.len() && s[k].worker_id == id {
            let k = choose|k: int| 0 <= k < s.len() && s[k].worker_id == id;
            assert(k != i);
            assert(t[k].worker_id == id);
            let k2 = choose|k: int| 0 <= k < t.len() && t[k].worker_id == id;
            assert(k2 != i);
            assert(t[k2].worker_id == s[k2].worker_id);
        } else {
            if exists|k: int| 0 <= k < t.len() && t[k].worker_id == id {
                let k2 = choose|k: int| 0 <= k < t.len() && t[k].worker_id == id;
                assert(k2 != i);
                assert(s[k2].worker_id == id);
            }
        }
    }
}

proof fn lemma_entry_push(s: Seq<RegistrationView>, v: RegistrationView)
    requires
        entry_from(s, v.worker_id, 0) is None,
        forall|a: int, b: int| 0 <= a < s.len() && 0 <= b < s.len() && a != b ==> s[a].worker_id != s[b].worker_id,
    ensures
        forall|a: int, b: int|
            0 <= a < s.push(v).len() && 0 <= b < s.push(v).len() && a != b ==> s.push(v)[a].worker_id != s.push(
                v,
            )[b].worker_id,
        entry_from(s.push(v), v.worker_id, 0) == Some(v),
        forall|id: u64| id != v.worker_id ==> #[trigger] entry_from(s.push(v), id, 0) == entry_from(s, id, 0),
{
    let t = s.push(v);
    lemma_entry_lookup(s, v.worker_id);
    assert forall|a: int, b: int| 0 <= a < t.len() && 0 <= b < t.len() && a != b implies t[a].worker_id != t[b].worker_id by {
        if a < s.len() && b < s.len() {
            assert(t[a] == s[a]);
            assert(t[b] == s[b]);
        } else if a < s.len() {
            assert(t[a] == s[a]);
        } else if b < s.len() {
            assert(t[b] == s[b]);
        }
    }
    lemma_entry_at(t, s.len() as int, 0);
    assert forall|id: u64| id != v.worker_id implies #[trigger] entry_from(t, id, 0) == entry_from(s, id, 0) by {
        lemma_entry_lookup(s, id);
        lemma_entry_lookup(t, id);
        if exists|k: int| 0 <= k < s.len() && s[k].worker_id == id {
            let k = choose|k: int| 0 <= k < s.len() && s[k].worker_id == id;
            assert(t[k] == s[k]);
            let k2 = choose|k: int| 0 <= k < t.len() && t[k].worker_id == id;
            assert(k2 < s.len());
            assert(t[k2] == s[k2]);
        } else {
            if exists|k: int| 0 <= k < t.len() && t[k].worker_id == id {
                let k2 = choose|k: int| 0 <= k < t.len() && t[k].worker_id == id;
                assert(k2 < s.len());
                assert(t[k2] == s[k2]);
            }
        }
    }
}

proof fn lemma_entry_remove(s: Seq<RegistrationView>, i: int)
    requires
        0 <= i < s.len(),
        forall|a: int, b: int| 0 <= a < s.len() && 0 <= b < s.len() && a != b ==> s[a].worker_id != s[b].worker_id,
    ensures
        forall|a: int, b: int|
            0 <= a < s.remove(i).len() && 0 <= b < s.remove(i).len() && a != b ==> s.remove(i)[a].worker_id
                != s.remove(i)[b].worker_id,
        entry_from(s.remove(i), s[i].worker_id, 0) is None,
        forall|id: u64| id != s[i].worker_id ==> #[trigger] entry_from(s.remove(i), id, 0) == entry_from(s, id, 0),
{
    let t = s.remove(i);
    assert forall|a: int| 0 <= a < t.len() implies #[trigger] t[a] == (if a < i {
        s[a]
    } else {
        s[a + 1]
    }) by {}
    assert forall|a: int, b: int| 0 <= a < t.len() && 0 <= b < t.len() && a != b implies t[a].worker_id != t[b].worker_id by {
        let a2 = if a < i { a } else { a + 1 };
        let b2 = if b < i { b } else { b + 1 };
        assert(t[a] == s[a2]);
        assert(t[b] == s[b2]);
    }
    assert forall|k: int| 0 <= k < t.len() implies t[k].worker_id != s[i].worker_id by {
        let k2 = if k < i { k } else { k + 1 };
        assert(t[k] == s[k2]);
    }
    lemma_entry_absent(t, s[i].worker_id, 0);
    assert forall|id: u64| id != s[i].worker_id implies #[trigger] entry_from(t, id, 0) == entry_from(s, id, 0) by {
        lemma_entry_lookup(s, id);
        lemma_entry_lookup(t, id);
        if exists|k: int| 0 <= k < s.len() && s[k].worker_id == id {
            let k = choose|k: int| 0 <= k < s.len() && s[k].worker_id == id;
            assert(k != i);
            let k1 = if k < i { k } else { k - 1 };
            assert(t[k1] == s[k]);
            let k2 = choose|k: int| 0 <= k < t.len() && t[k].worker_id == id;
            let k3 = if k2 < i { k2 } else { k2 + 1 };
            assert(t[k2] == s[k3]);
        } else {
            if exists|k: int| 0 <= k < t.len() && t[k].worker_id == id {
                let k2 = choose|k: int| 0 <= k < t.len() && t[k].worker_id == id;
                let k3 = if k2 < i { k2 } else { k2 + 1 };
                assert(t[k2] == s[k3]);
            }
        }
    }
}


// ---------------------------------------------------------------------------
// Selector start-up checks

/// Why the in-process selector cannot start.
#[derive(Clone, Copy, Debug, PartialEq, Eq, Structural)]
pub enum SelectorConfigError {
    /// The router's scheduling policy needs `max_num_batched_tokens`, and it
    /// is missing or zero.
    MissingBatchedTokens,
    /// Replication is on but the pod's own IP is unknown or blank.
    MissingPodIp,
}

pub open spec fn selector_config_message(e: SelectorConfigError) -> Seq<char> {
    match e {
        SelectorConfigError::MissingBatchedTokens => "DYN_EPP_MAX_NUM_BATCHED_TOKENS is required (and must be > 0) because the router scheduling policy (queue threshold or policy config) is enabled; set it to the engine's --max-num-batched-tokens"@,
        SelectorConfigError::MissingPodIp => "DYN_EPP_PEER_SERVICE is set but POD_IP is unavailable; inject POD_IP via the downward API (fieldRef status.podIP) so this replica can exclude itself from its peer set"@,
    }
}

impl SelectorConfigError {
    /// The error's text.
    pub fn message(&self) -> (r: String)
        ensures
            r@ == selector_config_message(*self),
    {
        match self {
            SelectorConfigError::MissingBatchedTokens => String::from_str(
                "DYN_EPP_MAX_NUM_BATCHED_TOKENS is required (and must be > 0) because the router scheduling policy (queue threshold or policy config) is enabled; set it to the engine's --max-num-batched-tokens",
            ),
            SelectorConfigError::MissingPodIp => String::from_str(
                "DYN_EPP_PEER_SERVICE is set but POD_IP is unavailable; inject POD_IP via the downward API (fieldRef status.podIP) so this replica can exclude itself from its peer set",
            ),
        }
    }
}

/// When the router's scheduling policy needs it (`required`), every worker
/// must be registered with a nonzero `max_num_batched_tokens`; this is checked
/// once, before any worker is discovered.
pub fn check_batched_tokens(required: bool, max_num_batched_tokens: Option<u64>) -> (r: Result<(), SelectorConfigError>)
    ensures
        r is Err <==> required && (max_num_batched_tokens is None || max_num_batched_tokens == Some(0u64)),
        r is Err ==> r == Err::<(), SelectorConfigError>(SelectorConfigError::MissingBatchedTokens),
{
    if required {
        match max_num_batched_tokens {
            None => return Err(SelectorConfigError::MissingBatchedTokens),
            Some(n) => if n == 0 {
                return Err(SelectorConfigError::MissingBatchedTokens);
            },
        }
    }
    Ok(())
}

/// The pod's own IP for a replicated picker, from the raw `POD_IP` value:
/// trimmed, and refused when absent or blank, so a replica never peers with
/// itself.
pub fn own_pod_ip(raw: Option<&str>) -> (r: Result<String, SelectorConfigError>)
    ensures
        match raw {
            None => r == Err::<String, SelectorConfigError>(SelectorConfigError::MissingPodIp),
            Some(s) => if trimmed(s@).len() == 0 {
                r == Err::<String, SelectorConfigError>(SelectorConfigError::MissingPodIp)
            } else {
                r matches Ok(ip) && ip@ == trimmed(s@)
            },
        },
{
    match raw {
        None => Err(SelectorConfigError::MissingPodIp),
        Some(s) => {
            let ip = trim(s);
            if ip.as_str().unicode_len() == 0 {
                Err(SelectorConfigError::MissingPodIp)
            } else {
                Ok(ip)
            }
        },
    }
}


// ---------------------------------------------------------------------------
// Convergence of catalog syncing

/// Position `i` of `d` holds the registration that counts for its worker.
pub open spec fn counts_at(d: Seq<RegistrationView>, i: int) -> bool {
    entry_from(d, d[i].worker_id, 0) == Some(d[i])
}

/// Among the first `n` desired registrations, those the catalog `c` does not
/// hold yet.
pub open spec fn pending_upserts(c: Seq<RegistrationView>, d: Seq<RegistrationView>, n: int) -> nat
    decreases n,
{
    if n <= 0 {
        0
    } else {
        pending_upserts(c, d, n - 1) + if counts_at(d, n - 1) && entry_from(c, d[n - 1].worker_id, 0) != Some(
            d[n - 1],
        ) {
            1nat
        } else {
            0nat
        }
    }
}

/// Among the first `n` catalog entries, those of workers not desired.
pub open spec fn pending_deletes(c: Seq<RegistrationView>, d: Seq<RegistrationView>, n: int) -> nat
    decreases n,
{
    if n <= 0 {
        0
    } else {
        pending_deletes(c, d, n - 1) + if entry_from(d, c[n - 1].worker_id, 0) is None {
            1nat
        } else {
            0nat
        }
    }
}

/// How far the catalog `c` is from the desired registrations `d`.
pub open spec fn sync_pending(c: Seq<RegistrationView>, d: Seq<RegistrationView>) -> nat {
    pending_upserts(c, d, d.len() as int) + pending_deletes(c, d, c.len() as int)
}

/// The catalog `c` after applying action `a` for the desired `d`.
pub open spec fn apply_sync(c: Seq<RegistrationView>, d: Seq<RegistrationView>, a: SyncAction) -> Seq<RegistrationView> {
    match a {
        SyncAction::Upsert(i) => record_view(c, d[i as int]),
        SyncAction::Delete(id) => forget_view(c, id),
    }
}

proof fn lemma_upserts_mono(c: Seq<RegistrationView>, c2: Seq<RegistrationView>, d: Seq<RegistrationView>, n: int, i0: int)
    requires
        0 <= n <= d.len(),
        forall|i: int|
            0 <= i < n && counts_at(d, i) && entry_from(c2, d[i].worker_id, 0) != Some(d[i]) ==> #[trigger] entry_from(
                c,
                d[i].worker_id,
                0,
            ) != Some(d[i]),
    ensures
        pending_upserts(c2, d, n) <= pending_upserts(c, d, n),
        (0 <= i0 < n && counts_at(d, i0) && entry_from(c, d[i0].worker_id, 0) != Some(d[i0]) && entry_from(
            c2,
            d[i0].worker_id,
            0,
        ) == Some(d[i0])) ==> pending_upserts(c2, d, n) < pending_upserts(c, d, n),
    decreases n,
{
    if n > 0 {
        lemma_upserts_mono(c, c2, d, n - 1, i0);
        let i = n - 1;
        if counts_at(d, i) && entry_from(c2, d[i].worker_id, 0) != Some(d[i]) {
            assert(entry_from(c, d[i].worker_id, 0) != Some(d[i]));
        }
    }
}

proof fn lemma_deletes_same(c: Seq<RegistrationView>, c2: Seq<RegistrationView>, d: Seq<RegistrationView>, n: int)
    requires
        0 <= n <= c.len(),
        n <= c2.len(),
        forall|j: int| 0 <= j < n ==> #[trigger] c2[j].worker_id == c[j].worker_id,
    ensures
        pending_deletes(c2, d, n) == pending_deletes(c, d, n),
    decreases n,
{
    if n > 0 {
        lemma_deletes_same(c, c2, d, n - 1);
        assert(c2[n - 1].worker_id == c[n - 1].worker_id);
    }
}

proof fn lemma_deletes_remove(c: Seq<RegistrationView>, d: Seq<RegistrationView>, p: int, n: int)
    requires
        0 <= p < n <= c.len(),
    ensures
        pending_deletes(c.remove(p), d, n - 1) + (if entry_from(d, c[p].worker_id, 0) is None {
            1nat
        } else {
            0nat
        }) == pending_deletes(c, d, n),
    decreases n,
{
    let r = c.remove(p);
    if n == p + 1 {
        assert forall|j: int| 0 <= j < p implies #[trigger] r[j].worker_id == c[j].worker_id by {
            assert(r[j] == c[j]);
        }
        lemma_deletes_same(c, r, d, p);
    } else {
        lemma_deletes_remove(c, d, p, n - 1);
        assert(r[n - 2] == c[n - 1]);
    }
}

/// Each sync action the catalog asks for brings it strictly closer to the
/// desired registrations, so applying them one after another ends; it ends
/// when no action is left, which is when the catalog holds exactly the
/// desired registrations (see [`WorkerCatalog::next_sync_action`]), and a
/// second sync then finds nothing to do.
pub proof fn law_sync_action_progresses(c: Seq<RegistrationView>, d: Seq<RegistrationView>, a: SyncAction)
    requires
        ids_unique(c),
        a matches SyncAction::Upsert(i) ==> i < d.len() && counts_at(d, i as int) && entry_from(c, d[i as int].worker_id, 0)
            != Some(d[i as int]),
        a matches SyncAction::Delete(id) ==> entry_from(c, id, 0) is Some && entry_from(d, id, 0) is None,
    ensures
        ids_unique(apply_sync(c, d, a)),
        sync_pending(apply_sync(c, d, a), d) < sync_pending(c, d),
{
    match a {
        SyncAction::Upsert(i) => {
            let x = d[i as int];
            let c2 = record_view(c, x);
            if has_id(c, x.worker_id) {
                let p = id_pos(c, x.worker_id);
                lemma_entry_update(c, p, x);
                assert forall|j: int| 0 <= j < c.len() implies #[trigger] c2[j].worker_id == c[j].worker_id by {}
                lemma_deletes_same(c, c2, d, c.len() as int);
            } else {
                lemma_entry_absent(c, x.worker_id, 0);
                lemma_entry_push(c, x);
                assert forall|j: int| 0 <= j < c.len() implies #[trigger] c2[j].worker_id == c[j].worker_id by {}
                lemma_deletes_same(c, c2, d, c.len() as int);
                assert(c2[c.len() as int] == x);
                assert(entry_from(d, x.worker_id, 0) is Some);
            }
            assert forall|k: int|
                0 <= k < d.len() && counts_at(d, k) && entry_from(c2, d[k].worker_id, 0) != Some(d[k]) implies #[trigger] entry_from(
                c,
                d[k].worker_id,
                0,
            ) != Some(d[k]) by {
                if d[k].worker_id == x.worker_id {
                    assert(d[k] == x);
                }
            }
            lemma_upserts_mono(c, c2, d, d.len() as int, i as int);
        },
        SyncAction::Delete(id) => {
            lemma_entry_found(c, id, 0);
            let c2 = forget_view(c, id);
            assert(has_id(c, id));
            let p = id_pos(c, id);
            lemma_entry_remove(c, p);
            lemma_deletes_remove(c, d, p, c.len() as int);
            assert forall|k: int|
                0 <= k < d.len() && counts_at(d, k) && entry_from(c2, d[k].worker_id, 0) != Some(d[k]) implies #[trigger] entry_from(
                c,
                d[k].worker_id,
                0,
            ) != Some(d[k]) by {
                if d[k].worker_id == id {
                    lemma_entry_present(d, k, 0);
                }
            }
            lemma_upserts_mono(c, c2, d, d.len() as int, -1);
        },
    }
}

} // verus!
