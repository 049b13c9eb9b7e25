//! Pod discovery for standalone (raw vLLM) mode: which pods are Ready
//! members of the InferencePool, and the worker each one becomes.

use vstd::prelude::*;
use crate::text::{push_char, push_str, push_decimal, decimal, has_prefix, starts_with, str_equal};

verus! {

/// The slice of an InferencePool spec that pod discovery needs: the
/// equality label selector and the HTTP target port.
#[derive(Clone, Debug)]
pub struct PoolState {
    pub match_labels: Vec<(String, String)>,
    pub target_port: u16,
}

/// A pod condition: its type and status.
#[derive(Clone, Debug)]
pub struct PodCondition {
    pub kind: String,
    pub status: String,
}

/// The parts of a Kubernetes pod that discovery reads. `terminating` holds
/// when the pod has a deletion timestamp.
#[derive(Clone, Debug)]
pub struct PodInfo {
    pub name: Option<String>,
    pub labels: Option<Vec<(String, String)>>,
    pub terminating: bool,
    pub conditions: Option<Vec<PodCondition>>,
    pub pod_ip: Option<String>,
}

/// A discovered, Ready raw vLLM worker normalized for selector registration.
#[derive(Clone, Debug)]
pub struct RawWorker {
    /// Stable hash of the pod name; the selector catalog key.
    pub worker_id: u64,
    pub pod_name: String,
    pub pod_ip: String,
    /// OpenAI HTTP inference endpoint, `http://<ip>:<target_port>`.
    pub http_endpoint: String,
    /// vLLM KV-event ZMQ PUB endpoint, `tcp://<ip>:<kv_event_port>`.
    pub kv_events_endpoint: String,
    /// Optional ZMQ REQ endpoint for live-stream gap replay.
    pub replay_endpoint: Option<String>,
    /// Routing identity; currently the pod name.
    pub stable_routing_id: String,
}

/// A worker as plain values.
pub struct WorkerView {
    pub worker_id: u64,
    pub pod_name: Seq<char>,
    pub pod_ip: Seq<char>,
    pub http_endpoint: Seq<char>,
    pub kv_events_endpoint: Seq<char>,
    pub replay_endpoint: Option<Seq<char>>,
    pub stable_routing_id: Seq<char>,
}

pub open spec fn worker_view(w: RawWorker) -> WorkerView {
    WorkerView {
        worker_id: w.worker_id,
        pod_name: w.pod_name@,
        pod_ip: w.pod_ip@,
        http_endpoint: w.http_endpoint@,
        kv_events_endpoint: w.kv_events_endpoint@,
        replay_endpoint: match w.replay_endpoint {
            Some(e) => Some(e@),
            None => None,
        },
        stable_routing_id: w.stable_routing_id@,
    }
}

pub open spec fn ready_type() -> Seq<char> {
    seq!['R', 'e', 'a', 'd', 'y']
}

pub open spec fn true_status() -> Seq<char> {
    seq!['T', 'r', 'u', 'e']
}

/// A `Ready` condition with status `True`.
pub open spec fn ready_condition(c: PodCondition) -> bool {
    c.kind@ == ready_type() && c.status@ == true_status()
}

/// The pod is Ready and not terminating.
pub open spec fn pod_ready(p: PodInfo) -> bool {
    &&& !p.terminating
    &&& p.conditions is Some
    &&& exists|i: int| 0 <= i < p.conditions->0@.len() && #[trigger] ready_condition(p.conditions->0@[i])
}

/// Returns `true` iff the pod is Ready and not terminating: a pod being
/// deleted stops receiving traffic even while it still reports Ready.
pub fn pod_is_ready(p: &PodInfo) -> (r: bool)
    ensures
        r == pod_ready(*p),
{
    if p.terminating {
        return false;
    }
    proof {
        reveal_strlit("Ready");
        reveal_strlit("True");
        assert("Ready"@ =~= ready_type());
        assert("True"@ =~= true_status());
    }
    match &p.conditions {
        None => false,
        Some(cs) => {
            let mut i: usize = 0;
            while i < cs.len()
                invariant
                    i <= cs@.len(),
                    !p.terminating,
                    p.conditions == Some(*cs),
                    "Ready"@ == ready_type(),
                    "True"@ == true_status(),
                    forall|j: int| 0 <= j < i ==> !#[trigger] ready_condition(cs@[j]),
                decreases cs@.len() - i,
            {
                if str_equal(cs[i].kind.as_str(), "Ready") && str_equal(cs[i].status.as_str(), "True") {
                    assert(ready_condition(p.conditions->0@[i as int]));
                    return true;
                }
                i = i + 1;
            }
            false
        },
    }
}

/// A pod that is not terminating is Ready when any of its conditions, at
/// whatever position it is listed, is of type `Ready` with status `True`, and
/// only then; a terminating pod never is.
pub proof fn law_ready_condition_anywhere(p: PodInfo, i: int)
    ensures
        p.terminating ==> !pod_ready(p),
        (!p.terminating && p.conditions is Some && 0 <= i < p.conditions->0@.len()
            && p.conditions->0@[i].kind@ == ready_type() && p.conditions->0@[i].status@ == true_status())
            ==> pod_ready(p),
        pod_ready(p) ==> p.conditions is Some && exists|j: int|
            0 <= j < p.conditions->0@.len() && p.conditions->0@[j].kind@ == ready_type()
                && #[trigger] p.conditions->0@[j].status@ == true_status(),
{
    if !p.terminating && p.conditions is Some && 0 <= i < p.conditions->0@.len()
        && p.conditions->0@[i].kind@ == ready_type() && p.conditions->0@[i].status@ == true_status() {
        assert(ready_condition(p.conditions->0@[i]));
    }
    if pod_ready(p) {
        let j = choose|j: int| 0 <= j < p.conditions->0@.len() && #[trigger] ready_condition(p.conditions->0@[j]);
        assert(p.conditions->0@[j].status@ == true_status());
    }
}

/// Readiness does not depend on the order of a pod's conditions: two pods
/// alike but for the order in which their conditions are listed are both
/// Ready or both not.
pub proof fn law_readiness_ignores_condition_order(p: PodInfo, q: PodInfo)
    requires
        p.terminating == q.terminating,
        p.conditions is Some <==> q.conditions is Some,
        p.conditions is Some ==> p.conditions->0@.to_multiset() == q.conditions->0@.to_multiset(),
    ensures
        pod_ready(p) == pod_ready(q),
{
    broadcast use vstd::seq_lib::group_to_multiset_ensures;
    if p.conditions is Some {
        let a = p.conditions->0@;
        let b = q.conditions->0@;
        if pod_ready(p) {
            let i = choose|i: int| 0 <= i < a.len() && #[trigger] ready_condition(a[i]);
            assert(a.contains(a[i]));
            assert(a.to_multiset().count(a[i]) > 0);
            assert(b.contains(a[i]));
            let j = choose|j: int| 0 <= j < b.len() && b[j] == a[i];
            assert(ready_condition(b[j]));
        }
        if pod_ready(q) {
            let i = choose|i: int| 0 <= i < b.len() && #[trigger] ready_condition(b[i]);
            assert(b.contains(b[i]));
            assert(b.to_multiset().count(b[i]) > 0);
            assert(a.contains(b[i]));
            let j = choose|j: int| 0 <= j < a.len() && a[j] == b[i];
            assert(ready_condition(a[j]));
        }
    }
}

/// The value of label `k` among the first `n` labels (the first one).
pub open spec fn label_from(labels: Seq<(String, String)>, k: Seq<char>, i: int) -> Option<Seq<char>>
    decreases labels.len() - i,
{
    if i < 0 || i >= labels.len() {
        None
    } else if labels[i].0@ == k {
        Some(labels[i].1@)
    } else {
        label_from(labels, k, i + 1)
    }
}

/// The pod carries every selector label with the equal value; a pod without
/// labels matches only the empty selector.
pub open spec fn pod_selected(p: PodInfo, match_labels: Seq<(String, String)>) -> bool {
    match p.labels {
        None => match_labels.len() == 0,
        Some(ls) => forall|i: int|
            0 <= i < match_labels.len() ==> label_from(ls@, #[trigger] match_labels[i].0@, 0) == Some(
                match_labels[i].1@,
            ),
    }
}

fn label_of(labels: &Vec<(String, String)>, k: &String) -> (r: Option<usize>)
    ensures
        match r {
            Some(j) => j < labels@.len() && label_from(labels@, k@, 0) == Some(labels@[j as int].1@),
            None => label_from(labels@, k@, 0) is None,
        },
{
    let mut i: usize = 0;
    while i < labels.len()
        invariant
            i <= labels@.len(),
            label_from(labels@, k@, 0) == label_from(labels@, k@, i as int),
        decreases labels@.len() - i,
    {
        if labels[i].0 == *k {
            return Some(i);
        }
        i = i + 1;
    }
    None
}

/// Returns `true` iff the pod carries every `match_labels` key with the
/// equal value (an equality-based selector).
pub fn pod_matches(p: &PodInfo, match_labels: &Vec<(String, String)>) -> (r: bool)
    ensures
        r == pod_selected(*p, match_labels@),
{
    match &p.labels {
        None => match_labels.len() == 0,
        Some(ls) => {
            let mut i: usize = 0;
            while i < match_labels.len()
                invariant
                    i <= match_labels@.len(),
                    p.labels == Some(*ls),
                    forall|j: int|
                        0 <= j < i ==> label_from(ls@, #[trigger] match_labels@[j].0@, 0) == Some(
                            match_labels@[j].1@,
                        ),
                decreases match_labels@.len() - i,
            {
                match label_of(ls, &match_labels[i].0) {
                    None => {
                        return false;
                    },
                    Some(j) => {
                        if ls[j].1 != match_labels[i].1 {
                            return false;
                        }
                    },
                }
                i = i + 1;
            }
            true
        },
    }
}

/// `scheme://ip:port`.
pub open spec fn endpoint_of(scheme: Seq<char>, ip: Seq<char>, port: u16) -> Seq<char> {
    scheme + ip + seq![':'] + decimal(port as nat)
}

pub open spec fn http_scheme() -> Seq<char> {
    seq!['h', 't', 't', 'p', ':', '/', '/']
}

pub open spec fn https_scheme() -> Seq<char> {
    seq!['h', 't', 't', 'p', 's', ':', '/', '/']
}

pub open spec fn tcp_scheme() -> Seq<char> {
    seq!['t', 'c', 'p', ':', '/', '/']
}

fn endpoint_string(scheme: &str, ip: &str, port: u16) -> (r: String)
    ensures
        r@ == endpoint_of(scheme@, ip@, port),
{
    let mut s = String::new();
    push_str(&mut s, scheme);
    push_str(&mut s, ip);
    push_char(&mut s, ':');
    push_decimal(&mut s, port as u64);
    assert(s@ =~= endpoint_of(scheme@, ip@, port));
    s
}

/// The worker a pod becomes, given its id: `None` unless the pod is Ready,
/// selected by the pool, named, and has a non-empty IP.
pub open spec fn pod_worker(
    p: PodInfo,
    pool: PoolState,
    kv_event_port: u16,
    replay_port: Option<u16>,
    worker_id: u64,
) -> Option<WorkerView> {
    if !pod_ready(p) || !pod_selected(p, pool.match_labels@) {
        None
    } else {
        match p.name {
            None => None,
            Some(name) => match p.pod_ip {
                None => None,
                Some(ip) => if ip@.len() == 0 {
                    None
                } else {
                    Some(
                        WorkerView {
                            worker_id,
                            pod_name: name@,
                            pod_ip: ip@,
                            http_endpoint: endpoint_of(http_scheme(), ip@, pool.target_port),
                            kv_events_endpoint: endpoint_of(tcp_scheme(), ip@, kv_event_port),
                            replay_endpoint: match replay_port {
                                Some(port) => Some(endpoint_of(tcp_scheme(), ip@, port)),
                                None => None,
                            },
                            stable_routing_id: name@,
                        },
                    )
                },
            },
        }
    }
}

/// Builds the worker for a pod whose id is `worker_id` (the stable hash of
/// its name), or `None` if it is not Ready, not pool-selected, or lacks a
/// name or an IP.
pub fn raw_worker_from_pod(
    p: &PodInfo,
    pool: &PoolState,
    kv_event_port: u16,
    replay_port: Option<u16>,
    worker_id: u64,
) -> (r: Option<RawWorker>)
    ensures
        match r {
            Some(w) => pod_worker(*p, *pool, kv_event_port, replay_port, worker_id) == Some(worker_view(w)),
            None => pod_worker(*p, *pool, kv_event_port, replay_port, worker_id) is None,
        },
{
    if !pod_is_ready(p) || !pod_matches(p, &pool.match_labels) {
        return None;
    }
    let name = match &p.name {
        None => {
            return None;
        },
        Some(n) => n,
    };
    let ip = match &p.pod_ip {
        None => {
            return None;
        },
        Some(ip) => ip,
    };
    if ip.as_str().unicode_len() == 0 {
        return None;
    }
    proof {
        reveal_strlit("http://");
        reveal_strlit("tcp://");
        assert("http://"@ =~= http_scheme());
        assert("tcp://"@ =~= tcp_scheme());
    }
    let replay_endpoint = match replay_port {
        Some(port) => Some(endpoint_string("tcp://", ip.as_str(), port)),
        None => None,
    };
    let w = RawWorker {
        worker_id,
        pod_name: name.clone(),
        pod_ip: ip.clone(),
        http_endpoint: endpoint_string("http://", ip.as_str(), pool.target_port),
        kv_events_endpoint: endpoint_string("tcp://", ip.as_str(), kv_event_port),
        replay_endpoint,
        stable_routing_id: name.clone(),
    };
    Some(w)
}

/// `endpoint` without a leading `http://` or `https://`.
pub open spec fn scheme_stripped(e: Seq<char>) -> Seq<char> {
    if has_prefix(e, http_scheme()) {
        e.subrange(7, e.len() as int)
    } else if has_prefix(e, https_scheme()) {
        e.subrange(8, e.len() as int)
    } else {
        e
    }
}

/// Drops a leading `http://` or `https://` from an endpoint.
pub fn strip_scheme(endpoint: &str) -> (r: &str)
    ensures
        r@ == scheme_stripped(endpoint@),
{
    proof {
        reveal_strlit("http://");
        reveal_strlit("https://");
        assert("http://"@ =~= http_scheme());
        assert("https://"@ =~= https_scheme());
    }
    let n = endpoint.unicode_len();
    if starts_with(endpoint, "http://") {
        endpoint.substring_char(7, n)
    } else if starts_with(endpoint, "https://") {
        endpoint.substring_char(8, n)
    } else {
        endpoint
    }
}

/// A pod with the id of its worker.
pub struct IdentifiedPod {
    pub pod: PodInfo,
    pub worker_id: u64,
}

/// The workers of the first `n` pods.
pub open spec fn workers_upto(
    pods: Seq<IdentifiedPod>,
    pool: PoolState,
    kv_event_port: u16,
    replay_port: Option<u16>,
    n: int,
) -> Seq<WorkerView>
    decreases n,
{
    if n <= 0 {
        Seq::empty()
    } else {
        let r = workers_upto(pods, pool, kv_event_port, replay_port, n - 1);
        match pod_worker(pods[n - 1].pod, pool, kv_event_port, replay_port, pods[n - 1].worker_id) {
            Some(w) => r.push(w),
            None => r,
        }
    }
}

pub open spec fn worker_views(ws: Seq<RawWorker>) -> Seq<WorkerView> {
    ws.map_values(|w: RawWorker| worker_view(w))
}

/// All Ready, pool-selected workers, in pod order; none until the pool has
/// resolved.
pub fn ready_workers(
    pods: &[IdentifiedPod],
    pool: &Option<PoolState>,
    kv_event_port: u16,
    replay_port: Option<u16>,
) -> (r: Vec<RawWorker>)
    ensures
        worker_views(r@) == match pool {
            Some(pl) => workers_upto(pods@, *pl, kv_event_port, replay_port, pods@.len() as int),
            None => Seq::empty(),
        },
{
    let pl = match pool {
        None => {
            let r: Vec<RawWorker> = Vec::new();
            assert(worker_views(r@) =~= Seq::<WorkerView>::empty());
            return r;
        },
        Some(pl) => pl,
    };
    let mut r: Vec<RawWorker> = Vec::new();
    let mut i: usize = 0;
    while i < pods.len()
        invariant
            i <= pods@.len(),
            worker_views(r@) == workers_upto(pods@, *pl, kv_event_port, replay_port, i as int),
        decreases pods@.len() - i,
    {
        let ghost r0 = r@;
        match raw_worker_from_pod(&pods[i].pod, pl, kv_event_port, replay_port, pods[i].worker_id) {
            Some(w) => {
                r.push(w);
                assert(worker_views(r@) =~= worker_views(r0).push(worker_view(r@[r@.len() - 1])));
            },
            None => {},
        }
        i = i + 1;
    }
    r
}

/// The HTTP endpoint (`ip:port`, scheme-less) of the Ready, pool-selected
/// worker with id `worker_id`, if any (the first such pod).
pub open spec fn endpoint_for(
    pods: Seq<IdentifiedPod>,
    pool: PoolState,
    kv_event_port: u16,
    replay_port: Option<u16>,
    worker_id: u64,
    i: int,
) -> Option<Seq<char>>
    decreases pods.len() - i,
{
    if i < 0 || i >= pods.len() {
        None
    } else {
        match pod_worker(pods[i].pod, pool, kv_event_port, replay_port, pods[i].worker_id) {
            Some(w) => if w.worker_id == worker_id {
                Some(scheme_stripped(w.http_endpoint))
            } else {
                endpoint_for(pods, pool, kv_event_port, replay_port, worker_id, i + 1)
            },
            None => endpoint_for(pods, pool, kv_event_port, replay_port, worker_id, i + 1),
        }
    }
}

/// Resolves a worker id to its current scheme-less HTTP endpoint, if its pod
/// is still Ready and pool-selected; stops at the first match.
pub fn resolve_endpoint(
    pods: &[IdentifiedPod],
    pool: &Option<PoolState>,
    kv_event_port: u16,
    replay_port: Option<u16>,
    worker_id: u64,
) -> (r: Option<String>)
    ensures
        match pool {
            None => r is None,
            Some(pl) => match r {
                Some(e) => endpoint_for(pods@, *pl, kv_event_port, replay_port, worker_id, 0) == Some(e@),
                None => endpoint_for(pods@, *pl, kv_event_port, replay_port, worker_id, 0) is None,
            },
        },
{
    let pl = match pool {
        None => {
            return None;
        },
        Some(pl) => pl,
    };
    let mut i: usize = 0;
    while i < pods.len()
        invariant
            i <= pods@.len(),
            *pool == Some(*pl),
            endpoint_for(pods@, *pl, kv_event_port, replay_port, worker_id, 0) == endpoint_for(
                pods@,
                *pl,
                kv_event_port,
                replay_port,
                worker_id,
                i as int,
            ),
        decreases pods@.len() - i,
    {
        match raw_worker_from_pod(&pods[i].pod, pl, kv_event_port, replay_port, pods[i].worker_id) {
            Some(w) => {
                if w.worker_id == worker_id {
                    let e = strip_scheme(w.http_endpoint.as_str());
                    return Some(String::from_str(e));
                }
            },
            None => {},
        }
        i = i + 1;
    }
    None
}

} // verus!
