//! Routing decisions of the standalone endpoint picker: which Ready workers
//! a request may go to, the tenant cache namespace, and the headers that tell
//! the gateway where the request goes.

use vstd::prelude::*;
use crate::text::{
    views, trimmed, trim, eq_ignore_ascii_case, ascii_eq_ignore_case, str_equal, decimal,
    decimal_string,
};
use super::pods::{
    IdentifiedPod, PoolState, WorkerView, workers_upto, endpoint_for, ready_workers, resolve_endpoint,
    worker_views, pod_worker,
};

verus! {

/// The position of the first `:` in `s` from `i` on (or the length).
pub open spec fn colon_from(s: Seq<char>, i: int) -> int
    decreases s.len() - i,
{
    if i < 0 || i >= s.len() {
        s.len() as int
    } else if s[i] == ':' {
        i
    } else {
        colon_from(s, i + 1)
    }
}

/// The host of a scheme-less `ip:port` endpoint: what precedes its first `:`.
pub open spec fn host_part(s: Seq<char>) -> Seq<char> {
    s.take(colon_from(s, 0))
}

/// An Envoy subset covers an endpoint when it lists the full `ip:port` or
/// the bare `ip`.
pub open spec fn subset_covers(endpoint: Seq<char>, candidates: Seq<Seq<char>>) -> bool {
    candidates.contains(endpoint) || candidates.contains(host_part(endpoint))
}

proof fn lemma_colon_bounds(s: Seq<char>, i: int)
    requires
        0 <= i <= s.len(),
    ensures
        i <= colon_from(s, i) <= s.len(),
    decreases s.len() - i,
{
    if i < s.len() && s[i] != ':' {
        lemma_colon_bounds(s, i + 1);
    }
}

fn contains_str(v: &[String], x: &str) -> (r: bool)
    ensures
        r == views(v@).contains(x@),
{
    let mut i: usize = 0;
    while i < v.len()
        invariant
            i <= v@.len(),
            forall|j: int| 0 <= j < i ==> v@[j]@ != x@,
        decreases v@.len() - i,
    {
        if str_equal(v[i].as_str(), x) {
            assert(views(v@)[i as int] == x@);
            return true;
        }
        i = i + 1;
    }
    assert forall|j: int| 0 <= j < views(v@).len() implies views(v@)[j] != x@ by {
        assert(views(v@)[j] == v@[j]@);
    }
    false
}

/// True if a scheme-less `ip:port` endpoint is covered by an Envoy subset,
/// matching either the full `ip:port` or the bare `ip`.
pub fn endpoint_in_subset(endpoint: &str, candidates: &[String]) -> (r: bool)
    ensures
        r == subset_covers(endpoint@, views(candidates@)),
{
    let n = endpoint.unicode_len();
    let mut i: usize = 0;
    while i < n && endpoint.get_char(i) != ':'
        invariant
            n == endpoint@.len(),
            i <= n,
            colon_from(endpoint@, 0) == colon_from(endpoint@, i as int),
        decreases n - i,
    {
        i = i + 1;
    }
    let host = endpoint.substring_char(0, i);
    assert(host@ =~= host_part(endpoint@));
    contains_str(candidates, endpoint) || contains_str(candidates, host)
}

pub open spec fn tenant_key() -> Seq<char> {
    seq!['x', '-', 't', 'e', 'n', 'a', 'n', 't', '-', 'i', 'd']
}

/// The value of the first header, from position `i` on, named `x-tenant-id`
/// in any ASCII case.
pub open spec fn tenant_header_from(h: Seq<(String, String)>, i: int) -> Option<Seq<char>>
    decreases h.len() - i,
{
    if i < 0 || i >= h.len() {
        None
    } else if eq_ignore_ascii_case(h[i].0@, tenant_key()) {
        Some(h[i].1@)
    } else {
        tenant_header_from(h, i + 1)
    }
}

/// The tenant of a request: the trimmed value of its first `x-tenant-id`
/// header, unless that is empty.
pub open spec fn tenant_of(h: Seq<(String, String)>) -> Option<Seq<char>> {
    match tenant_header_from(h, 0) {
        Some(v) => if trimmed(v).len() > 0 {
            Some(trimmed(v))
        } else {
            None
        },
        None => None,
    }
}

/// The `x-tenant-id` routing header (case-insensitive, trimmed, non-empty),
/// which overrides the body's cache namespace.
pub fn tenant_id_header(headers: &[(String, String)]) -> (r: Option<String>)
    ensures
        match r {
            Some(v) => tenant_of(headers@) == Some(v@),
            None => tenant_of(headers@) is None,
        },
{
    proof {
        reveal_strlit("x-tenant-id");
        assert("x-tenant-id"@ =~= tenant_key());
    }
    let mut i: usize = 0;
    while i < headers.len()
        invariant
            i <= headers@.len(),
            "x-tenant-id"@ == tenant_key(),
            tenant_header_from(headers@, 0) == tenant_header_from(headers@, i as int),
        decreases headers@.len() - i,
    {
        if ascii_eq_ignore_case(headers[i].0.as_str(), "x-tenant-id") {
            let v = trim(headers[i].1.as_str());
            if v.as_str().unicode_len() > 0 {
                return Some(v);
            } else {
                return None;
            }
        }
        i = i + 1;
    }
    None
}

/// The distinct ids among the first `n` of `s`, first occurrences in order.
pub open spec fn distinct_ids_upto(s: Seq<u64>, n: int) -> Seq<u64>
    decreases n,
{
    if n <= 0 {
        Seq::empty()
    } else {
        let r = distinct_ids_upto(s, n - 1);
        if r.contains(s[n - 1]) {
            r
        } else {
            r.push(s[n - 1])
        }
    }
}

/// The ids of the Ready, pool-selected workers, each once, in pod order.
pub open spec fn ready_ids(
    pods: Seq<IdentifiedPod>,
    pool: Option<PoolState>,
    kv_event_port: u16,
    replay_port: Option<u16>,
) -> Seq<u64> {
    match pool {
        None => Seq::empty(),
        Some(pl) => {
            let ws = workers_upto(pods, pl, kv_event_port, replay_port, pods.len() as int);
            let ids = ws.map_values(|w: WorkerView| w.worker_id);
            distinct_ids_upto(ids, ids.len() as int)
        },
    }
}

/// Pod `j` is Ready and pool-selected and has worker id `id`.
pub open spec fn pod_serves(
    pods: Seq<IdentifiedPod>,
    pool: PoolState,
    kv_event_port: u16,
    replay_port: Option<u16>,
    j: int,
    id: u64,
) -> bool {
    pod_worker(pods[j].pod, pool, kv_event_port, replay_port, pods[j].worker_id) is Some && pods[j].worker_id == id
}

proof fn lemma_distinct_contains(s: Seq<u64>, n: int, x: u64)
    requires
        0 <= n <= s.len(),
    ensures
        distinct_ids_upto(s, n).contains(x) <==> exists|j: int| 0 <= j < n && s[j] == x,
    decreases n,
{
    if n > 0 {
        lemma_distinct_contains(s, n - 1, x);
        let r = distinct_ids_upto(s, n - 1);
        if !r.contains(s[n - 1]) {
            assert(r.push(s[n - 1])[r.len() as int] == s[n - 1]);
            if r.contains(x) {
                let k = choose|k: int| 0 <= k < r.len() && r[k] == x;
                assert(r.push(s[n - 1])[k] == x);
            }
            let rp = r.push(s[n - 1]);
            if rp.contains(x) && x != s[n - 1] {
                let k = choose|k: int| 0 <= k < rp.len() && rp[k] == x;
                assert(r[k] == x);
            }
        }
        if exists|j: int| 0 <= j < n && s[j] == x {
            let j = choose|j: int| 0 <= j < n && s[j] == x;
            if j < n - 1 {
                assert(exists|j: int| 0 <= j < n - 1 && s[j] == x);
            } else if r.contains(s[n - 1]) {
                assert(r.contains(x));
            }
        }
    }
}

proof fn lemma_workers_serve(
    pods: Seq<IdentifiedPod>,
    pool: PoolState,
    kv_event_port: u16,
    replay_port: Option<u16>,
    n: int,
    id: u64,
)
    requires
        0 <= n <= pods.len(),
    ensures
        (exists|k: int|
            0 <= k < workers_upto(pods, pool, kv_event_port, replay_port, n).len() && #[trigger] workers_upto(
                pods,
                pool,
                kv_event_port,
                replay_port,
                n,
            )[k].worker_id == id) <==> exists|j: int|
            0 <= j < n && #[trigger] pod_serves(pods, pool, kv_event_port, replay_port, j, id),
    decreases n,
{
    if n > 0 {
        lemma_workers_serve(pods, pool, kv_event_port, replay_port, n - 1, id);
        let r = workers_upto(pods, pool, kv_event_port, replay_port, n - 1);
        let ws = workers_upto(pods, pool, kv_event_port, replay_port, n);
        match pod_worker(pods[n - 1].pod, pool, kv_event_port, replay_port, pods[n - 1].worker_id) {
            Some(w) => {
                assert(ws == r.push(w));
                assert(w.worker_id == pods[n - 1].worker_id);
                if exists|k: int| 0 <= k < ws.len() && #[trigger] ws[k].worker_id == id {
                    let k = choose|k: int| 0 <= k < ws.len() && #[trigger] ws[k].worker_id == id;
                    if k < r.len() {
                        assert(r[k].worker_id == id);
                        let j = choose|j: int| 0 <= j < n - 1 && #[trigger] pod_serves(pods, pool, kv_event_port, replay_port, j, id);
                        assert(pod_serves(pods, pool, kv_event_port, replay_port, j, id));
                    } else {
                        assert(pod_serves(pods, pool, kv_event_port, replay_port, n - 1, id));
                    }
                }
                if exists|j: int| 0 <= j < n && #[trigger] pod_serves(pods, pool, kv_event_port, replay_port, j, id) {
                    let j = choose|j: int| 0 <= j < n && #[trigger] pod_serves(pods, pool, kv_event_port, replay_port, j, id);
                    if j < n - 1 {
                        let k = choose|k: int| 0 <= k < r.len() && #[trigger] r[k].worker_id == id;
                        assert(ws[k] == r[k]);
                    } else {
                        assert(ws[r.len() as int].worker_id == id);
                    }
                }
            },
            None => {
                assert(ws == r);
                if exists|j: int| 0 <= j < n && #[trigger] pod_serves(pods, pool, kv_event_port, replay_port, j, id) {
                    let j = choose|j: int| 0 <= j < n && #[trigger] pod_serves(pods, pool, kv_event_port, replay_port, j, id);
                    assert(j < n - 1);
                }
            },
        }
    }
}

proof fn lemma_endpoint_found(
    pods: Seq<IdentifiedPod>,
    pool: PoolState,
    kv_event_port: u16,
    replay_port: Option<u16>,
    id: u64,
    i: int,
)
    requires
        0 <= i <= pods.len(),
    ensures
        endpoint_for(pods, pool, kv_event_port, replay_port, id, i) is Some <==> exists|j: int|
            i <= j < pods.len() && #[trigger] pod_serves(pods, pool, kv_event_port, replay_port, j, id),
    decreases pods.len() - i,
{
    if i < pods.len() {
        lemma_endpoint_found(pods, pool, kv_event_port, replay_port, id, i + 1);
        if exists|j: int| i <= j < pods.len() && #[trigger] pod_serves(pods, pool, kv_event_port, replay_port, j, id) {
            let j = choose|j: int| i <= j < pods.len() && #[trigger] pod_serves(pods, pool, kv_event_port, replay_port, j, id);
            if j > i {
                assert(exists|j: int| i + 1 <= j < pods.len() && #[trigger] pod_serves(pods, pool, kv_event_port, replay_port, j, id));
            }
        }
        match pod_worker(pods[i].pod, pool, kv_event_port, replay_port, pods[i].worker_id) {
            Some(w) => {
                if w.worker_id == id {
                    assert(pod_serves(pods, pool, kv_event_port, replay_port, i, id));
                }
            },
            None => {},
        }
    }
}

/// Every Ready worker resolves to an endpoint, and only those do: a worker
/// id is among the Ready worker ids exactly when its endpoint resolves.
pub proof fn law_ready_workers_resolve(
    pods: Seq<IdentifiedPod>,
    pool: PoolState,
    kv_event_port: u16,
    replay_port: Option<u16>,
    id: u64,
)
    ensures
        ready_ids(pods, Some(pool), kv_event_port, replay_port).contains(id) <==> endpoint_for(
            pods,
            pool,
            kv_event_port,
            replay_port,
            id,
            0,
        ) is Some,
{
    let ws = workers_upto(pods, pool, kv_event_port, replay_port, pods.len() as int);
    let ids = ws.map_values(|w: WorkerView| w.worker_id);
    lemma_distinct_contains(ids, ids.len() as int, id);
    lemma_workers_serve(pods, pool, kv_event_port, replay_port, pods.len() as int, id);
    lemma_endpoint_found(pods, pool, kv_event_port, replay_port, id, 0);
    if exists|j: int| 0 <= j < ids.len() && ids[j] == id {
        let j = choose|j: int| 0 <= j < ids.len() && ids[j] == id;
        assert(ws[j].worker_id == id);
    }
    if exists|k: int| 0 <= k < ws.len() && #[trigger] ws[k].worker_id == id {
        let k = choose|k: int| 0 <= k < ws.len() && #[trigger] ws[k].worker_id == id;
        assert(ids[k] == id);
    }
}

fn contains_id(v: &Vec<u64>, x: u64) -> (r: bool)
    ensures
        r == v@.contains(x),
{
    let mut i: usize = 0;
    while i < v.len()
        invariant
            i <= v@.len(),
            forall|j: int| 0 <= j < i ==> v@[j] != x,
        decreases v@.len() - i,
    {
        if v[i] == x {
            return true;
        }
        i = i + 1;
    }
    false
}

/// Ids of all currently Ready, pool-selected workers.
pub fn ready_worker_ids(
    pods: &[IdentifiedPod],
    pool: &Option<PoolState>,
    kv_event_port: u16,
    replay_port: Option<u16>,
) -> (r: Vec<u64>)
    ensures
        r@ == ready_ids(pods@, *pool, kv_event_port, replay_port),
{
    let ws = ready_workers(pods, pool, kv_event_port, replay_port);
    let ghost ids = worker_views(ws@).map_values(|w: WorkerView| w.worker_id);
    let mut r: Vec<u64> = Vec::new();
    let mut i: usize = 0;
    while i < ws.len()
        invariant
            i <= ws@.len(),
            ids == worker_views(ws@).map_values(|w: WorkerView| w.worker_id),
            r@ == distinct_ids_upto(ids, i as int),
        decreases ws@.len() - i,
    {
        let id = ws[i].worker_id;
        assert(ids[i as int] == id);
        if !contains_id(&r, id) {
            r.push(id);
        }
        i = i + 1;
    }
    r
}

/// The allowed workers, among the first `n`, whose endpoint the subset
/// covers.
pub open spec fn subset_ids_upto(
    allowed: Seq<u64>,
    subset: Seq<Seq<char>>,
    pods: Seq<IdentifiedPod>,
    pool: PoolState,
    kv_event_port: u16,
    replay_port: Option<u16>,
    n: int,
) -> Seq<u64>
    decreases n,
{
    if n <= 0 {
        Seq::empty()
    } else {
        let r = subset_ids_upto(allowed, subset, pods, pool, kv_event_port, replay_port, n - 1);
        match endpoint_for(pods, pool, kv_event_port, replay_port, allowed[n - 1], 0) {
            Some(e) => if subset_covers(e, subset) {
                r.push(allowed[n - 1])
            } else {
                r
            },
            None => r,
        }
    }
}

/// The allowed Ready workers inside an Envoy `candidate_subset` (endpoint
/// addresses, `ip:port` or bare `ip`).
pub fn subset_worker_ids(
    allowed: &Vec<u64>,
    candidate_subset: &[String],
    pods: &[IdentifiedPod],
    pool: &Option<PoolState>,
    kv_event_port: u16,
    replay_port: Option<u16>,
) -> (r: Vec<u64>)
    ensures
        match pool {
            Some(pl) => r@ == subset_ids_upto(
                allowed@,
                views(candidate_subset@),
                pods@,
                *pl,
                kv_event_port,
                replay_port,
                allowed@.len() as int,
            ),
            None => r@.len() == 0,
        },
{
    let mut r: Vec<u64> = Vec::new();
    let mut i: usize = 0;
    while i < allowed.len()
        invariant
            i <= allowed@.len(),
            match pool {
                Some(pl) => r@ == subset_ids_upto(
                    allowed@,
                    views(candidate_subset@),
                    pods@,
                    *pl,
                    kv_event_port,
                    replay_port,
                    i as int,
                ),
                None => r@.len() == 0,
            },
        decreases allowed@.len() - i,
    {
        match resolve_endpoint(pods, pool, kv_event_port, replay_port, allowed[i]) {
            Some(e) => {
                if endpoint_in_subset(e.as_str(), candidate_subset) {
                    r.push(allowed[i]);
                }
            },
            None => {},
        }
        i = i + 1;
    }
    r
}

/// Why a request cannot be routed.
#[derive(Clone, Copy, Debug, PartialEq, Eq, Structural)]
pub enum PickRefusal {
    /// The pod reflector has not finished its initial listing.
    ReflectorNotReady,
    /// No Ready worker (inside the requested subset) can take the request.
    NoEndpoints,
}

/// How a routable request proceeds.
#[derive(Clone, Debug)]
pub enum PickPlan {
    /// A body-less request goes straight to this worker.
    Direct { worker_id: u64, endpoint: String },
    /// The selector chooses among these workers.
    Select { allowed: Vec<u64> },
}

/// A plan as plain values.
pub enum PlanView {
    Direct(u64, Seq<char>),
    Select(Seq<u64>),
}

pub open spec fn plan_view(p: PickPlan) -> PlanView {
    match p {
        PickPlan::Direct { worker_id, endpoint } => PlanView::Direct(worker_id, endpoint@),
        PickPlan::Select { allowed } => PlanView::Select(allowed@),
    }
}

/// The routing decision for a request: refused until the reflector is ready
/// or when no Ready worker remains (a non-empty subset that matches none is
/// refused rather than ignored); a body-less request goes to the first
/// allowed worker; others go to the selector with the allowed set.
pub open spec fn pick_plan(
    reflector_ready: bool,
    pods: Seq<IdentifiedPod>,
    pool: Option<PoolState>,
    kv_event_port: u16,
    replay_port: Option<u16>,
    subset: Seq<Seq<char>>,
    body_empty: bool,
) -> Result<PlanView, PickRefusal> {
    let ready = ready_ids(pods, pool, kv_event_port, replay_port);
    if !reflector_ready {
        Err(PickRefusal::ReflectorNotReady)
    } else if ready.len() == 0 {
        Err(PickRefusal::NoEndpoints)
    } else {
        let pl = pool->0;
        let allowed = if subset.len() > 0 {
            subset_ids_upto(ready, subset, pods, pl, kv_event_port, replay_port, ready.len() as int)
        } else {
            ready
        };
        if allowed.len() == 0 {
            Err(PickRefusal::NoEndpoints)
        } else if body_empty {
            match endpoint_for(pods, pl, kv_event_port, replay_port, allowed[0], 0) {
                Some(e) => Ok(PlanView::Direct(allowed[0], e)),
                None => Err(PickRefusal::NoEndpoints),
            }
        } else {
            Ok(PlanView::Select(allowed))
        }
    }
}

proof fn lemma_subset_ids_covered(
    allowed: Seq<u64>,
    subset: Seq<Seq<char>>,
    pods: Seq<IdentifiedPod>,
    pool: PoolState,
    kv_event_port: u16,
    replay_port: Option<u16>,
    n: int,
)
    requires
        n <= allowed.len(),
    ensures
        forall|k: int|
            0 <= k < subset_ids_upto(allowed, subset, pods, pool, kv_event_port, replay_port, n).len() ==> {
                let w = #[trigger] subset_ids_upto(allowed, subset, pods, pool, kv_event_port, replay_port, n)[k];
                &&& allowed.contains(w)
                &&& endpoint_for(pods, pool, kv_event_port, replay_port, w, 0) is Some
                &&& subset_covers(endpoint_for(pods, pool, kv_event_port, replay_port, w, 0)->0, subset)
            },
    decreases n,
{
    if n > 0 {
        lemma_subset_ids_covered(allowed, subset, pods, pool, kv_event_port, replay_port, n - 1);
        let r = subset_ids_upto(allowed, subset, pods, pool, kv_event_port, replay_port, n - 1);
        let t = subset_ids_upto(allowed, subset, pods, pool, kv_event_port, replay_port, n);
        assert forall|k: int| 0 <= k < t.len() implies {
            let w = #[trigger] t[k];
            &&& allowed.contains(w)
            &&& endpoint_for(pods, pool, kv_event_port, replay_port, w, 0) is Some
            &&& subset_covers(endpoint_for(pods, pool, kv_event_port, replay_port, w, 0)->0, subset)
        } by {
            if k < r.len() {
                assert(t[k] == r[k]);
            } else {
                assert(t[k] == allowed[n - 1]);
                assert(allowed.contains(allowed[n - 1]));
            }
        }
    }
}

proof fn lemma_subset_ids_complete(
    allowed: Seq<u64>,
    subset: Seq<Seq<char>>,
    pods: Seq<IdentifiedPod>,
    pool: PoolState,
    kv_event_port: u16,
    replay_port: Option<u16>,
    n: int,
)
    requires
        n <= allowed.len(),
    ensures
        forall|k: int|
            0 <= k < n && endpoint_for(pods, pool, kv_event_port, replay_port, #[trigger] allowed[k], 0) is Some
                && subset_covers(endpoint_for(pods, pool, kv_event_port, replay_port, allowed[k], 0)->0, subset)
                ==> subset_ids_upto(allowed, subset, pods, pool, kv_event_port, replay_port, n).contains(allowed[k]),
    decreases n,
{
    if n > 0 {
        lemma_subset_ids_complete(allowed, subset, pods, pool, kv_event_port, replay_port, n - 1);
        let r = subset_ids_upto(allowed, subset, pods, pool, kv_event_port, replay_port, n - 1);
        let t = subset_ids_upto(allowed, subset, pods, pool, kv_event_port, replay_port, n);
        assert forall|k: int|
            0 <= k < n && endpoint_for(pods, pool, kv_event_port, replay_port, #[trigger] allowed[k], 0) is Some
                && subset_covers(endpoint_for(pods, pool, kv_event_port, replay_port, allowed[k], 0)->0, subset)
                implies t.contains(allowed[k]) by {
            if k < n - 1 {
                assert(r.contains(allowed[k]));
                let m = choose|m: int| 0 <= m < r.len() && r[m] == allowed[k];
                assert(t[m] == r[m]);
            } else {
                assert(t[t.len() - 1] == allowed[k]);
            }
        }
    }
}

/// The selector may choose among every Ready worker a request may use: with
/// no candidate subset, among all Ready workers; with one, among all Ready
/// workers whose current endpoint the subset covers.
pub proof fn law_pick_offers_every_usable_worker(
    reflector_ready: bool,
    pods: Seq<IdentifiedPod>,
    pool: Option<PoolState>,
    kv_event_port: u16,
    replay_port: Option<u16>,
    subset: Seq<Seq<char>>,
    body_empty: bool,
    w: u64,
)
    ensures
        (pick_plan(reflector_ready, pods, pool, kv_event_port, replay_port, subset, body_empty) matches Ok(
            PlanView::Select(allowed),
        ) && ready_ids(pods, pool, kv_event_port, replay_port).contains(w) && (subset.len() == 0 || (endpoint_for(
            pods,
            pool->0,
            kv_event_port,
            replay_port,
            w,
            0,
        ) is Some && subset_covers(endpoint_for(pods, pool->0, kv_event_port, replay_port, w, 0)->0, subset))))
            ==> (pick_plan(reflector_ready, pods, pool, kv_event_port, replay_port, subset, body_empty)->Ok_0)
            ->Select_0.contains(w),
{
    let ready = ready_ids(pods, pool, kv_event_port, replay_port);
    if reflector_ready && ready.len() > 0 && subset.len() > 0 && ready.contains(w) {
        let pl = pool->0;
        lemma_subset_ids_complete(ready, subset, pods, pl, kv_event_port, replay_port, ready.len() as int);
        let k = choose|k: int| 0 <= k < ready.len() && ready[k] == w;
        assert(ready[k] == w);
    }
}

/// A pick never leaves the Ready workers, nor an Envoy candidate subset: when
/// the subset is non-empty, every worker the selector may choose from, and
/// the worker a body-less request goes to, is Ready and has a current
/// endpoint that the subset covers (as `ip:port` or bare `ip`); the endpoint
/// of a body-less request is that worker's current one.
pub proof fn law_pick_stays_inside_subset(
    reflector_ready: bool,
    pods: Seq<IdentifiedPod>,
    pool: Option<PoolState>,
    kv_event_port: u16,
    replay_port: Option<u16>,
    subset: Seq<Seq<char>>,
    body_empty: bool,
)
    ensures
        match pick_plan(reflector_ready, pods, pool, kv_event_port, replay_port, subset, body_empty) {
            Ok(PlanView::Select(allowed)) => {
                &&& allowed.len() > 0
                &&& forall|k: int|
                    0 <= k < allowed.len() ==> {
                        &&& ready_ids(pods, pool, kv_event_port, replay_port).contains(#[trigger] allowed[k])
                        &&& subset.len() > 0 ==> {
                            &&& endpoint_for(pods, pool->0, kv_event_port, replay_port, allowed[k], 0) is Some
                            &&& subset_covers(
                                endpoint_for(pods, pool->0, kv_event_port, replay_port, allowed[k], 0)->0,
                                subset,
                            )
                        }
                    }
            },
            Ok(PlanView::Direct(w, e)) => {
                &&& ready_ids(pods, pool, kv_event_port, replay_port).contains(w)
                &&& pool is Some
                &&& endpoint_for(pods, pool->0, kv_event_port, replay_port, w, 0) == Some(e)
                &&& subset.len() > 0 ==> subset_covers(e, subset)
            },
            Err(_) => true,
        },
{
    let ready = ready_ids(pods, pool, kv_event_port, replay_port);
    if reflector_ready && ready.len() > 0 {
        let pl = pool->0;
        if subset.len() > 0 {
            lemma_subset_ids_covered(ready, subset, pods, pl, kv_event_port, replay_port, ready.len() as int);
            let a = subset_ids_upto(ready, subset, pods, pl, kv_event_port, replay_port, ready.len() as int);
            if a.len() > 0 {
                let w = a[0];
                assert(ready.contains(w));
            }
        } else {
            assert forall|k: int| 0 <= k < ready.len() implies ready.contains(#[trigger] ready[k]) by {}
            assert(ready.contains(ready[0]));
        }
    }
}

/// Decides how a request is routed (see [`pick_plan`]).
pub fn plan_pick(
    reflector_ready: bool,
    pods: &[IdentifiedPod],
    pool: &Option<PoolState>,
    kv_event_port: u16,
    replay_port: Option<u16>,
    candidate_subset: &[String],
    body_empty: bool,
) -> (r: Result<PickPlan, PickRefusal>)
    ensures
        match r {
            Ok(p) => pick_plan(
                reflector_ready,
                pods@,
                *pool,
                kv_event_port,
                replay_port,
                views(candidate_subset@),
                body_empty,
            ) == Ok::<PlanView, PickRefusal>(plan_view(p)),
            Err(e) => pick_plan(
                reflector_ready,
                pods@,
                *pool,
                kv_event_port,
                replay_port,
                views(candidate_subset@),
                body_empty,
            ) == Err::<PlanView, PickRefusal>(e),
        },
        r matches Ok(PickPlan::Select { allowed }) ==> forall|k: int|
            0 <= k < allowed@.len() ==> {
                &&& ready_ids(pods@, *pool, kv_event_port, replay_port).contains(#[trigger] allowed@[k])
                &&& candidate_subset@.len() > 0 ==> {
                    &&& endpoint_for(pods@, pool->0, kv_event_port, replay_port, allowed@[k], 0) is Some
                    &&& subset_covers(
                        endpoint_for(pods@, pool->0, kv_event_port, replay_port, allowed@[k], 0)->0,
                        views(candidate_subset@),
                    )
                }
            },
{
    proof {
        law_pick_stays_inside_subset(
            reflector_ready,
            pods@,
            *pool,
            kv_event_port,
            replay_port,
            views(candidate_subset@),
            body_empty,
        );
    }
    let ready = ready_worker_ids(pods, pool, kv_event_port, replay_port);
    if !reflector_ready {
        return Err(PickRefusal::ReflectorNotReady);
    }
    if ready.len() == 0 {
        return Err(PickRefusal::NoEndpoints);
    }
    assert(pool is Some);
    let allowed = if candidate_subset.len() > 0 {
        subset_worker_ids(&ready, candidate_subset, pods, pool, kv_event_port, replay_port)
    } else {
        ready
    };
    if allowed.len() == 0 {
        return Err(PickRefusal::NoEndpoints);
    }
    if body_empty {
        let w = allowed[0];
        match resolve_endpoint(pods, pool, kv_event_port, replay_port, w) {
            Some(e) => Ok(PickPlan::Direct { worker_id: w, endpoint: e }),
            None => Err(PickRefusal::NoEndpoints),
        }
    } else {
        Ok(PickPlan::Select { allowed })
    }
}

/// The headers that route a request to `worker_id` in aggregated serving.
pub fn routing_headers(worker_id: u64) -> (r: Vec<(String, String)>)
    ensures
        r@.len() == 2,
        r@[0].0@ == "x-dynamo-worker-instance-id"@,
        r@[0].1@ == decimal(worker_id as nat),
        r@[1].0@ == "x-dynamo-routing-mode"@,
        r@[1].1@ == "aggregated"@,
{
    let mut r: Vec<(String, String)> = Vec::new();
    r.push((String::from_str("x-dynamo-worker-instance-id"), decimal_string(worker_id)));
    r.push((String::from_str("x-dynamo-routing-mode"), String::from_str("aggregated")));
    r
}


/// The routing headers of worker `id`: its decimal id and the aggregated
/// routing mode.
pub open spec fn headers_for(h: Seq<(String, String)>, id: u64) -> bool {
    &&& h.len() == 2
    &&& h[0].0@ == "x-dynamo-worker-instance-id"@
    &&& h[0].1@ == decimal(id as nat)
    &&& h[1].0@ == "x-dynamo-routing-mode"@
    &&& h[1].1@ == "aggregated"@
}

/// Routes a request to the worker the selector chose: its current
/// scheme-less endpoint and its routing headers. A chosen worker whose pod
/// can no longer be resolved (it left Ready or the pool since the allowed set
/// was built) makes the choice stale; it is refused with `NoEndpoints`, and
/// the caller releases the booking.
pub fn route_selected(
    pods: &[IdentifiedPod],
    pool: &Option<PoolState>,
    kv_event_port: u16,
    replay_port: Option<u16>,
    worker_id: u64,
) -> (r: Result<(String, Vec<(String, String)>), PickRefusal>)
    ensures
        match pool {
            None => r == Err::<(String, Vec<(String, String)>), PickRefusal>(PickRefusal::NoEndpoints),
            Some(pl) => match endpoint_for(pods@, *pl, kv_event_port, replay_port, worker_id, 0) {
                None => r == Err::<(String, Vec<(String, String)>), PickRefusal>(PickRefusal::NoEndpoints),
                Some(e) => r matches Ok((ep, h)) && ep@ == e && headers_for(h@, worker_id),
            },
        },
{
    match resolve_endpoint(pods, pool, kv_event_port, replay_port, worker_id) {
        None => Err(PickRefusal::NoEndpoints),
        Some(endpoint) => Ok((endpoint, routing_headers(worker_id))),
    }
}

/// The KV cache namespace of a request: the `x-tenant-id` header when it is
/// present (trimmed, non-empty), otherwise the body's cache salt.
pub open spec fn salt_of(headers: Seq<(String, String)>, body_salt: Option<Seq<char>>) -> Option<Seq<char>> {
    match tenant_of(headers) {
        Some(t) => Some(t),
        None => body_salt,
    }
}

/// The KV cache namespace: the tenant header takes precedence over the
/// body's cache salt.
pub fn cache_salt(headers: &[(String, String)], body_salt: Option<String>) -> (r: Option<String>)
    ensures
        match r {
            Some(v) => salt_of(headers@, match body_salt {
                Some(b) => Some(b@),
                None => None,
            }) == Some(v@),
            None => salt_of(headers@, match body_salt {
                Some(b) => Some(b@),
                None => None,
            }) is None,
        },
{
    match tenant_id_header(headers) {
        Some(t) => Some(t),
        None => body_salt,
    }
}

} // verus!
