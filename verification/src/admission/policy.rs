//! Session-aware admission control.
//!
//! Each session runs as a program that sticks to the worker serving it, so
//! its context stays resident between turns. A session serves one request at
//! a time; later requests of the session wait in arrival order. Under KV
//! pressure the policy pauses idle programs (and marks running ones to pause
//! after their turn), and it resumes paused programs when capacity returns or
//! after they waited too long. A session-final request forgets the session's
//! program at once; idle programs are forgotten after the retention period.
//!
//! The policy takes the clock, the workers' capacities and each request's
//! worker eligibility as arguments: the caller samples them.

use vstd::prelude::*;
use std::collections::HashMap;
use indexmap::IndexMap;
use super::types::{
    WorkerWithDpRank, WorkerPlacement, AdmissionDecision, AdmissionAction, AdmissionId,
    AdmissionRequest, WorkerCapacity, WorkerEligibilitySnapshot, PolicyTiming, worker_lt, worker_less,
};
use super::program::{Program, ProgramState, footprint_of, is_suspended, is_running, is_marked, running_program};
use super::ordered::{
    program_entries, keys_distinct, has_key, key_index, program_map_new, program_map_len,
    program_map_get_index, program_map_index_of, program_map_insert, program_map_shift_remove,
    program_map_shift_remove_index,
};
use super::types::PressureCapacity;
use super::program::{retained_since, suspended_since};
use super::rebalance::{
    resume, placement_of, expire, keeps, kept_upto, is_deferred, deferred_upto, deferred_list,
    elig_from, elig_of, session_elig, cleared, clear_stale, suspended_keys_upto, suspended_keys,
    caps_have_worker, caps_any_allowed, unmetered_choice, resume_unmetered, elapsed,
    required_of, group_of, has_current, allows_worker, fits_slot, first_slot_from, count_slots,
    slot_key, slot_sort, slots_upto, device_room, device_table, paused_key, paused_order, reserve,
    take_device, Pick, select, pick_key, pick_sort, repack, final_workers, table_add, apply_picks,
    greedy, sat_add, timed_out, timed_out_upto, waits_for_available, force_resume, candidates_upto,
    candidates, marked_tokens, pause_idle, marked, mark_running, relieve, relieve_all, table_sub,
    reconcile, event_outcome,
};
use super::model::progressed;
use super::types::AdmissionEvent;
use super::keysort::{SortKey, key_sort, key_sorted, key_sorted_upto, lemma_sorted_len, lemma_sorted_members};
use super::sessions::{SessionTable, SessionView, current_of, waiting_of, with_current, sessions_wf};
use super::usage::{WorkerTable, usage_of, usage_sum, contribution, saturate, get0, lemma_saturate_step};
use super::model::{
    PolicyView, RequestView, Programs, prog_get, prog_set, prog_del, defer_program, assign_program,
    suspend_idle_program, fits_device, fits_capacity, cap_find, cap_find_from, placement_candidate,
    placement_before, has_placement, best_placement, is_best_placement, any_capacity_allowed,
    any_suspended, begin_final, place_turn, begin_request, offer, dispatched, promote_next, finish,
    promotion_candidate, sat_inc, admission_id, admission_action,
};

verus! {

broadcast use vstd::std_specs::hash::group_hash_axioms;

/// A request the policy has seen and not yet finished.
pub struct RequestState {
    pub session_id: String,
    pub session_final: bool,
    pub context_tokens: usize,
    pub prior: Option<Program>,
}

pub open spec fn request_view(r: RequestState) -> RequestView {
    RequestView {
        session: r.session_id@,
        session_final: r.session_final,
        context_tokens: r.context_tokens,
        prior: r.prior,
    }
}

/// Session-aware admission control for one policy class.
pub struct SessionAwareAdmissionControl {
    timing: PolicyTiming,
    programs: IndexMap<String, Program>,
    requests: HashMap<u64, RequestState>,
    sessions: SessionTable,
    next_tick: u64,
}

impl View for SessionAwareAdmissionControl {
    type V = PolicyView;

    closed spec fn view(&self) -> PolicyView {
        PolicyView {
            timing: self.timing,
            programs: program_entries(self.programs),
            requests: self.requests@.map_values(|r: RequestState| request_view(r)),
            sessions: self.sessions@,
            next_tick: self.next_tick,
        }
    }
}

pub proof fn lemma_key_index(e: Programs, i: int)
    requires
        keys_distinct(e),
        0 <= i < e.len(),
    ensures
        has_key(e, e[i].0),
        key_index(e, e[i].0) == i,
{
    let j = key_index(e, e[i].0);
    assert(e[j].0 == e[i].0);
}

/// The per-worker usages of the programs in `m`: all of them, and those of
/// running turns only.
fn worker_usages_of(m: &IndexMap<String, Program>) -> (r: (WorkerTable, WorkerTable))
    ensures
        r.0.wf(),
        r.1.wf(),
        forall|w: WorkerWithDpRank| #[trigger] get0(r.0@, w) == usage_of(program_entries(*m), w, false),
        forall|w: WorkerWithDpRank| #[trigger] get0(r.1@, w) == usage_of(program_entries(*m), w, true),
{
    let ghost e = program_entries(*m);
    let n = program_map_len(m);
    let mut total = WorkerTable::new();
    let mut running = WorkerTable::new();
    let mut i: usize = 0;
    while i < n
        invariant
            n == e.len(),
            e == program_entries(*m),
            i <= n,
            total.wf(),
            running.wf(),
            forall|w: WorkerWithDpRank| #[trigger] get0(total@, w) == saturate(usage_sum(e.take(i as int), w, false)),
            forall|w: WorkerWithDpRank| #[trigger] get0(running@, w) == saturate(usage_sum(e.take(i as int), w, true)),
        decreases n - i,
    {
        let (_, p) = program_map_get_index(m, i).unwrap();
        proof {
            assert(e.take(i + 1).drop_last() =~= e.take(i as int));
            assert(e.take(i + 1).last() == e[i as int]);
        }
        let ghost ot = total@;
        let ghost orn = running@;
        if !p.is_suspended() {
            if let Some(w) = p.assigned_worker {
                let fp = p.footprint();
                total.add(w, fp);
                if p.is_running() {
                    running.add(w, fp);
                }
            }
        }
        proof {
            let t = e.take(i + 1);
            assert(t.len() > 0);
            assert forall|w: WorkerWithDpRank| #[trigger] get0(total@, w) == saturate(usage_sum(e.take(i + 1), w, false)) by {
                assert(usage_sum(t, w, false) == usage_sum(t.drop_last(), w, false) + contribution(t.last().1, w, false));
                lemma_saturate_step(usage_sum(e.take(i as int), w, false), contribution(p, w, false));
                if contribution(p, w, false) == 0 {
                    assert(get0(total@, w) == get0(ot, w));
                }
            }
            assert forall|w: WorkerWithDpRank| #[trigger] get0(running@, w) == saturate(usage_sum(e.take(i + 1), w, true)) by {
                assert(usage_sum(t, w, true) == usage_sum(t.drop_last(), w, true) + contribution(t.last().1, w, true));
                lemma_saturate_step(usage_sum(e.take(i as int), w, true), contribution(p, w, true));
                if contribution(p, w, true) == 0 {
                    assert(get0(running@, w) == get0(orn, w));
                }
            }
        }
        i = i + 1;
    }
    proof {
        assert(e.take(n as int) =~= e);
    }
    (total, running)
}

/// The first capacity entry for worker `w`.
fn find_capacity(caps: &[WorkerCapacity], w: WorkerWithDpRank) -> (r: Option<WorkerCapacity>)
    ensures
        r == cap_find(caps@, w),
{
    let mut i: usize = 0;
    while i < caps.len()
        invariant
            i <= caps@.len(),
            cap_find(caps@, w) == cap_find_from(caps@, w, i as int),
        decreases caps@.len() - i,
    {
        if caps[i].worker == w {
            return Some(caps[i]);
        }
        i = i + 1;
    }
    None
}

/// Whether any capacity entry is for a worker the request may use now.
fn any_allowed(caps: &[WorkerCapacity], elig: &WorkerEligibilitySnapshot) -> (r: bool)
    ensures
        r == any_capacity_allowed(caps@, *elig),
{
    let mut i: usize = 0;
    while i < caps.len()
        invariant
            i <= caps@.len(),
            forall|j: int| 0 <= j < i ==> !super::types::snapshot_allows(*elig, caps@[j].worker),
        decreases caps@.len() - i,
    {
        if elig.allows(caps[i].worker) {
            return true;
        }
        i = i + 1;
    }
    false
}

fn fits_device_exec(cap: &WorkerCapacity, running_used: usize, tokens: usize) -> (r: bool)
    ensures
        r == fits_device(*cap, running_used, tokens),
{
    running_used <= cap.device_tokens && cap.device_tokens - running_used >= tokens
}

fn fits_capacity_exec(cap: &WorkerCapacity, used: usize, running_used: usize, tokens: usize) -> (r: bool)
    ensures
        r == fits_capacity(*cap, used, running_used, tokens),
{
    used <= cap.tokens && cap.tokens - used >= tokens && fits_device_exec(cap, running_used, tokens)
}

/// The least used eligible worker with room for `tokens`.
fn choose_placement(
    caps: &[WorkerCapacity],
    elig: &WorkerEligibilitySnapshot,
    usage: &WorkerTable,
    running: &WorkerTable,
    tokens: usize,
    Ghost(ps): Ghost<Programs>,
) -> (r: Option<WorkerWithDpRank>)
    requires
        usage.wf(),
        running.wf(),
        forall|w: WorkerWithDpRank| #[trigger] get0(usage@, w) == usage_of(ps, w, false),
        forall|w: WorkerWithDpRank| #[trigger] get0(running@, w) == usage_of(ps, w, true),
    ensures
        r is None <==> !has_placement(ps, caps@, *elig, tokens),
        r is Some ==> r->0 == best_placement(ps, caps@, *elig, tokens),
{
    let mut best: Option<(WorkerWithDpRank, usize)> = None;
    let mut i: usize = 0;
    while i < caps.len()
        invariant
            i <= caps@.len(),
            usage.wf(),
            running.wf(),
            forall|w: WorkerWithDpRank| #[trigger] get0(usage@, w) == usage_of(ps, w, false),
            forall|w: WorkerWithDpRank| #[trigger] get0(running@, w) == usage_of(ps, w, true),
            best is None ==> forall|j: int| 0 <= j < i ==> !#[trigger] placement_candidate(ps, caps@, *elig, tokens, j),
            best is Some ==> {
                let (bw, bu) = best->0;
                &&& bu == usage_of(ps, bw, false)
                &&& exists|j: int| 0 <= j < i && #[trigger] placement_candidate(ps, caps@, *elig, tokens, j) && caps@[j].worker == bw
                &&& forall|j: int| 0 <= j < i && #[trigger] placement_candidate(ps, caps@, *elig, tokens, j) ==> !placement_before(ps, caps@[j].worker, bw)
            },
        decreases caps@.len() - i,
    {
        let cap = caps[i];
        if elig.allows(cap.worker) {
            let used = usage.get_or_zero(cap.worker);
            let run = running.get_or_zero(cap.worker);
            if fits_capacity_exec(&cap, used, run, tokens) {
                assert(placement_candidate(ps, caps@, *elig, tokens, i as int));
                let better = match best {
                    None => true,
                    Some((bw, bu)) => used < bu || (used == bu && worker_less(cap.worker, bw)),
                };
                if better {
                    proof {
                        if best is Some {
                            let (bw, bu) = best->0;
                            assert forall|j: int| 0 <= j < i + 1 && #[trigger] placement_candidate(ps, caps@, *elig, tokens, j) implies !placement_before(ps, caps@[j].worker, cap.worker) by {
                                if j < i {
                                    assert(!placement_before(ps, caps@[j].worker, bw));
                                }
                            }
                        }
                    }
                    best = Some((cap.worker, used));
                }
            }
        }
        i = i + 1;
    }
    match best {
        None => {
            assert(!has_placement(ps, caps@, *elig, tokens));
            None
        },
        Some((bw, _)) => {
            proof {
                assert(is_best_placement(ps, caps@, *elig, tokens, bw));
                let w2 = best_placement(ps, caps@, *elig, tokens);
                assert(is_best_placement(ps, caps@, *elig, tokens, w2));
                let j2 = choose|j: int| #[trigger] placement_candidate(ps, caps@, *elig, tokens, j) && caps@[j].worker == w2;
                assert(!placement_before(ps, w2, bw));
                let j1 = choose|j: int| 0 <= j < caps@.len() && #[trigger] placement_candidate(ps, caps@, *elig, tokens, j) && caps@[j].worker == bw;
                assert(!placement_before(ps, bw, w2));
            }
            Some(bw)
        },
    }
}

proof fn lemma_kept_len(
    ps: Programs,
    sessions: Map<Seq<char>, SessionView>,
    now: u64,
    retention: u64,
    n: int,
)
    requires
        0 <= n,
    ensures
        kept_upto(ps, sessions, now, retention, n).len() <= n,
    decreases n,
{
    if n > 0 {
        lemma_kept_len(ps, sessions, now, retention, n - 1);
    }
}

/// `idx` picks out of `list`, in order, the entries of `d`.
pub open spec fn picks_entries(
    list: Seq<(AdmissionId, WorkerEligibilitySnapshot)>,
    idx: Seq<usize>,
    d: Seq<(AdmissionId, WorkerEligibilitySnapshot)>,
) -> bool {
    &&& idx.len() == d.len()
    &&& forall|k: int| 0 <= k < idx.len() ==> #[trigger] idx[k] < list.len() && list[idx[k] as int] == d[k]
}

/// The position in `list` of the eligibility of request `id` in `d`.
fn elig_position(
    list: &[(AdmissionId, WorkerEligibilitySnapshot)],
    dl: &Vec<usize>,
    Ghost(d): Ghost<Seq<(AdmissionId, WorkerEligibilitySnapshot)>>,
    id: u64,
) -> (r: Option<usize>)
    requires
        picks_entries(list@, dl@, d),
    ensures
        match r {
            Some(j) => j < list@.len() && elig_of(d, id) == Some(list@[j as int].1),
            None => elig_of(d, id) is None,
        },
{
    let mut k: usize = 0;
    while k < dl.len()
        invariant
            picks_entries(list@, dl@, d),
            k <= dl@.len(),
            elig_of(d, id) == elig_from(d, id, k as int),
        decreases dl@.len() - k,
    {
        let j = dl[k];
        assert(dl@[k as int] < list@.len() && list@[dl@[k as int] as int] == d[k as int]);
        if list[j].0.value == id {
            return Some(j);
        }
        k = k + 1;
    }
    None
}

fn caps_have(caps: &[PressureCapacity], w: WorkerWithDpRank) -> (r: bool)
    ensures
        r == caps_have_worker(caps@, w),
{
    let mut i: usize = 0;
    while i < caps.len()
        invariant
            i <= caps@.len(),
            forall|j: int| 0 <= j < i ==> caps@[j].capacity.worker != w,
        decreases caps@.len() - i,
    {
        if caps[i].capacity.worker == w {
            return true;
        }
        i = i + 1;
    }
    false
}

fn caps_any_allows(caps: &[PressureCapacity], snap: &WorkerEligibilitySnapshot) -> (r: bool)
    ensures
        r == caps_any_allowed(caps@, *snap),
{
    let mut i: usize = 0;
    while i < caps.len()
        invariant
            i <= caps@.len(),
            forall|j: int| 0 <= j < i ==> !super::types::snapshot_allows(*snap, caps@[j].capacity.worker),
        decreases caps@.len() - i,
    {
        if snap.allows(caps[i].capacity.worker) {
            return true;
        }
        i = i + 1;
    }
    false
}

proof fn lemma_first_slot(
    v: PolicyView,
    d: Seq<(AdmissionId, WorkerEligibilitySnapshot)>,
    s: Seq<char>,
    required: usize,
    busy: bool,
    l: Seq<(WorkerWithDpRank, usize)>,
    df: spec_fn(WorkerWithDpRank) -> Option<usize>,
    i: int,
)
    requires
        0 <= i,
        first_slot_from(v, d, s, required, busy, l, df, i) is Some,
    ensures
        ({
            let p = first_slot_from(v, d, s, required, busy, l, df, i)->0;
            i <= p < l.len() && fits_slot(v, d, s, required, busy, l[p], df)
        }),
    decreases l.len() - i,
{
    if i < l.len() && !fits_slot(v, d, s, required, busy, l[i], df) {
        lemma_first_slot(v, d, s, required, busy, l, df, i + 1);
    }
}

proof fn lemma_repack_fails_on(
    v: PolicyView,
    d: Seq<(AdmissionId, WorkerEligibilitySnapshot)>,
    ps: Seq<Pick>,
    slots: Seq<(WorkerWithDpRank, usize)>,
    df: spec_fn(WorkerWithDpRank) -> Option<usize>,
    i: int,
    n: int,
)
    requires
        i <= n,
        repack(v, d, ps, slots, df, i) is None,
    ensures
        repack(v, d, ps, slots, df, n) is None,
    decreases n - i,
{
    if i < n {
        lemma_repack_fails_on(v, d, ps, slots, df, i, n - 1);
    }
}

/// A worker table entry, if any.
pub open spec fn table_get(m: Map<WorkerWithDpRank, usize>, w: WorkerWithDpRank) -> Option<usize> {
    if m.contains_key(w) {
        Some(m[w])
    } else {
        None
    }
}

/// A paused session chosen to resume, as held while resuming.
pub struct PickEntry {
    pub group: usize,
    pub session: String,
    pub required: usize,
    pub busy: bool,
    pub worker: WorkerWithDpRank,
}

pub open spec fn pick_view(p: PickEntry) -> Pick {
    Pick { group: p.group, session: p.session@, required: p.required, busy: p.busy, worker: p.worker }
}

pub open spec fn picks_match(e: Seq<PickEntry>, s: Seq<Pick>) -> bool {
    &&& e.len() == s.len()
    &&& forall|k: int| 0 <= k < e.len() ==> #[trigger] pick_view(e[k]) == s[k]
}

impl PickEntry {
    fn duplicate(&self) -> (r: PickEntry)
        ensures
            pick_view(r) == pick_view(*self),
    {
        PickEntry {
            group: self.group,
            session: self.session.clone(),
            required: self.required,
            busy: self.busy,
            worker: self.worker,
        }
    }
}

fn slot_key_of(e: (WorkerWithDpRank, usize)) -> (k: SortKey)
    ensures
        k == slot_key(e),
{
    (u64::MAX - (e.1 as u64), e.0.worker_id, e.0.dp_rank as u64)
}

fn copy_slots(l: &Vec<(WorkerWithDpRank, usize)>) -> (r: Vec<(WorkerWithDpRank, usize)>)
    ensures
        r@ == l@,
{
    let mut r: Vec<(WorkerWithDpRank, usize)> = Vec::new();
    let mut i: usize = 0;
    while i < l.len()
        invariant
            i <= l@.len(),
            r@ == l@.take(i as int),
        decreases l@.len() - i,
    {
        r.push(l[i]);
        assert(l@.take(i + 1) =~= l@.take(i as int).push(l@[i as int]));
        i = i + 1;
    }
    assert(l@.take(l@.len() as int) =~= l@);
    r
}

/// Sorts slots by remaining tokens, most first, then by worker.
fn sort_slots(l: &Vec<(WorkerWithDpRank, usize)>) -> (r: Vec<(WorkerWithDpRank, usize)>)
    ensures
        r@ == slot_sort(l@),
{
    let ghost keyed_spec = Seq::new(l@.len(), |i: int| (slot_key(l@[i]), l@[i]));
    let mut keyed: Vec<(SortKey, (WorkerWithDpRank, usize))> = Vec::new();
    let mut i: usize = 0;
    while i < l.len()
        invariant
            i <= l@.len(),
            keyed@ == keyed_spec.take(i as int),
            keyed_spec == Seq::new(l@.len(), |i: int| (slot_key(l@[i]), l@[i])),
        decreases l@.len() - i,
    {
        keyed.push((slot_key_of(l[i]), l[i]));
        assert(keyed_spec.take(i + 1) =~= keyed_spec.take(i as int).push(keyed_spec[i as int]));
        i = i + 1;
    }
    assert(keyed_spec.take(l@.len() as int) =~= keyed_spec);
    let sorted = key_sort(keyed);
    proof {
        lemma_sorted_len(keyed_spec, keyed_spec.len() as int);
    }
    let mut r: Vec<(WorkerWithDpRank, usize)> = Vec::new();
    let mut j: usize = 0;
    while j < sorted.len()
        invariant
            j <= sorted@.len(),
            r@ == Seq::new(j as nat, |k: int| sorted@[k].1),
        decreases sorted@.len() - j,
    {
        r.push(sorted[j].1);
        assert(r@ =~= Seq::new((j + 1) as nat, |k: int| sorted@[k].1));
        j = j + 1;
    }
    assert(r@ =~= slot_sort(l@));
    r
}

/// The workers with room under their resume ceiling, with that room.
fn build_slots(
    caps: &[PressureCapacity],
    usage: &WorkerTable,
    Ghost(u): Ghost<spec_fn(WorkerWithDpRank) -> usize>,
) -> (r: Vec<(WorkerWithDpRank, usize)>)
    requires
        usage.wf(),
        forall|w: WorkerWithDpRank| #[trigger] get0(usage@, w) == u(w),
    ensures
        r@ == slots_upto(caps@, u, caps@.len() as int),
{
    let mut r: Vec<(WorkerWithDpRank, usize)> = Vec::new();
    let mut i: usize = 0;
    while i < caps.len()
        invariant
            i <= caps@.len(),
            usage.wf(),
            forall|w: WorkerWithDpRank| #[trigger] get0(usage@, w) == u(w),
            r@ == slots_upto(caps@, u, i as int),
        decreases caps@.len() - i,
    {
        let c = caps[i];
        let room = c.target_tokens.saturating_sub(usage.get_or_zero(c.capacity.worker));
        if room > 0 {
            r.push((c.capacity.worker, room));
        }
        i = i + 1;
    }
    r
}

/// The remaining device capacity of each reported worker.
fn build_device(
    caps: &[PressureCapacity],
    running: &WorkerTable,
    Ghost(rf): Ghost<spec_fn(WorkerWithDpRank) -> usize>,
) -> (t: WorkerTable)
    requires
        running.wf(),
        forall|w: WorkerWithDpRank| #[trigger] get0(running@, w) == rf(w),
    ensures
        t.wf(),
        forall|w: WorkerWithDpRank| #[trigger] table_get(t@, w) == device_table(caps@, rf)(w),
{
    let mut t = WorkerTable::new();
    let mut i: usize = 0;
    while i < caps.len()
        invariant
            i <= caps@.len(),
            running.wf(),
            t.wf(),
            forall|w: WorkerWithDpRank| #[trigger] get0(running@, w) == rf(w),
            forall|w: WorkerWithDpRank| #[trigger] table_get(t@, w) == device_room(caps@, rf, w, i as int),
        decreases caps@.len() - i,
    {
        let c = caps[i];
        let w = c.capacity.worker;
        let ghost t0 = t@;
        let room = c.capacity.device_tokens.saturating_sub(running.get_or_zero(w));
        t.set(w, room);
        proof {
            assert forall|x: WorkerWithDpRank| #[trigger] table_get(t@, x) == device_room(caps@, rf, x, i + 1) by {
                if x == w {
                    assert(get0(running@, w) == rf(w));
                } else {
                    assert(table_get(t0, x) == device_room(caps@, rf, x, i as int));
                }
            }
        }
        i = i + 1;
    }
    t
}

/// Takes `required` tokens from slot `pos`.
fn reserve_slot(l: &mut Vec<(WorkerWithDpRank, usize)>, pos: usize, required: usize)
    requires
        pos < old(l)@.len(),
        required <= old(l)@[pos as int].1,
    ensures
        final(l)@ == reserve(old(l)@, pos as int, required),
{
    let (w, rem) = l[pos];
    let updated = rem - required;
    if updated == 0 {
        l.remove(pos);
    } else {
        l.set(pos, (w, updated));
        let sorted = sort_slots(l);
        *l = sorted;
    }
}

/// Takes `required` device tokens from `w` for a session with a request.
fn take_device_room(
    dev: &mut WorkerTable,
    Ghost(df): Ghost<spec_fn(WorkerWithDpRank) -> Option<usize>>,
    w: WorkerWithDpRank,
    required: usize,
    busy: bool,
)
    requires
        old(dev).wf(),
        forall|x: WorkerWithDpRank| #[trigger] table_get(old(dev)@, x) == df(x),
    ensures
        final(dev).wf(),
        forall|x: WorkerWithDpRank| #[trigger] table_get(final(dev)@, x) == take_device(df, w, required, busy)(x),
{
    let ghost t0 = dev@;
    if busy {
        match dev.get(w) {
            Some(a) => {
                dev.set(w, a.saturating_sub(required));
                proof {
                    assert forall|x: WorkerWithDpRank| #[trigger] table_get(dev@, x) == take_device(df, w, required, busy)(x) by {
                        assert(table_get(t0, x) == df(x));
                        assert(table_get(t0, w) == df(w));
                    }
                }
            },
            None => {
                proof {
                    assert forall|x: WorkerWithDpRank| #[trigger] table_get(dev@, x) == take_device(df, w, required, busy)(x) by {
                        assert(table_get(t0, x) == df(x));
                        assert(table_get(t0, w) == df(w));
                    }
                }
            },
        }
    } else {
        assert forall|x: WorkerWithDpRank| #[trigger] table_get(dev@, x) == take_device(df, w, required, busy)(x) by {
            assert(table_get(t0, x) == df(x));
        }
    }
}

fn pick_key_of(p: &PickEntry) -> (k: SortKey)
    ensures
        k == pick_key(pick_view(*p)),
{
    (p.group as u64, u64::MAX - (p.required as u64), 0)
}

/// Sorts picks by priority group, largest footprint first.
fn sort_picks(picks: &Vec<PickEntry>, Ghost(ps): Ghost<Seq<Pick>>) -> (r: Vec<PickEntry>)
    requires
        picks_match(picks@, ps),
    ensures
        picks_match(r@, pick_sort(ps)),
{
    let ghost keyed_spec = Seq::new(ps.len(), |i: int| (pick_key(ps[i]), i as usize));
    let mut keyed: Vec<(SortKey, usize)> = Vec::new();
    let mut i: usize = 0;
    while i < picks.len()
        invariant
            picks_match(picks@, ps),
            i <= picks@.len(),
            keyed_spec == Seq::new(ps.len(), |i: int| (pick_key(ps[i]), i as usize)),
            keyed@ == keyed_spec.take(i as int),
        decreases picks@.len() - i,
    {
        assert(pick_view(picks@[i as int]) == ps[i as int]);
        keyed.push((pick_key_of(&picks[i]), i));
        assert(keyed_spec.take(i + 1) =~= keyed_spec.take(i as int).push(keyed_spec[i as int]));
        i = i + 1;
    }
    assert(keyed_spec.take(ps.len() as int) =~= keyed_spec);
    let sorted = key_sort(keyed);
    proof {
        lemma_sorted_len(keyed_spec, keyed_spec.len() as int);
        lemma_sorted_members(keyed_spec, keyed_spec.len() as int);
    }
    let ghost sp = pick_sort(ps);
    let mut r: Vec<PickEntry> = Vec::new();
    let mut j: usize = 0;
    while j < sorted.len()
        invariant
            j <= sorted@.len(),
            sorted@ == key_sorted(keyed_spec),
            sorted@.len() == ps.len(),
            picks_match(picks@, ps),
            keyed_spec == Seq::new(ps.len(), |i: int| (pick_key(ps[i]), i as usize)),
            forall|jj: int| 0 <= jj < sorted@.len() ==> exists|i: int| 0 <= i < ps.len() && #[trigger] sorted@[jj] == keyed_spec[i],
            sp == Seq::new(sorted@.len(), |jj: int| ps[sorted@[jj].1 as int]),
            picks_match(r@, sp.take(j as int)),
        decreases sorted@.len() - j,
    {
        let ghost i0 = choose|i: int| 0 <= i < ps.len() && sorted@[j as int] == keyed_spec[i];
        assert(sorted@[j as int].1 == i0 as usize);
        let k = sorted[j].1;
        assert(pick_view(picks@[k as int]) == ps[k as int]);
        r.push(picks[k].duplicate());
        assert(sp.take(j + 1) =~= sp.take(j as int).push(sp[j as int]));
        j = j + 1;
    }
    assert(sp.take(sp.len() as int) =~= sp);
    r
}

/// `e` holds, as plain values, the candidates `c`.
pub open spec fn cands_are(e: Seq<(usize, String)>, c: Seq<(usize, Seq<char>)>) -> bool {
    &&& e.len() == c.len()
    &&& forall|k: int| #![trigger e[k]] 0 <= k < e.len() ==> e[k].0 == c[k].0 && e[k].1@ == c[k].1
}

/// What pausing needs to know of one worker, taken before pausing begins.
pub struct PressurePlan {
    pub idle: Vec<(usize, String)>,
    pub running: Vec<(usize, String)>,
    pub marked: usize,
}

pub open spec fn plan_matches(plan: PressurePlan, ps: Programs, w: WorkerWithDpRank) -> bool {
    &&& cands_are(plan.idle@, candidates(ps, w, true))
    &&& cands_are(plan.running@, candidates(ps, w, false))
    &&& plan.marked == marked_tokens(ps, w, ps.len() as int)
}

/// Sorts candidates by footprint, smallest first.
fn sort_candidates(c: &Vec<(usize, String)>, Ghost(cs): Ghost<Seq<(usize, Seq<char>)>>) -> (r: Vec<(usize, String)>)
    requires
        cands_are(c@, cs),
    ensures
        cands_are(
            r@,
            ({
                let rr = key_sorted(Seq::new(cs.len(), |i: int| ((cs[i].0 as u64, 0u64, 0u64), i as usize)));
                Seq::new(rr.len(), |j: int| cs[rr[j].1 as int])
            }),
        ),
{
    let ghost keyed_spec = Seq::new(cs.len(), |i: int| ((cs[i].0 as u64, 0u64, 0u64), i as usize));
    let mut keyed: Vec<(SortKey, usize)> = Vec::new();
    let mut i: usize = 0;
    while i < c.len()
        invariant
            cands_are(c@, cs),
            i <= c@.len(),
            keyed_spec == Seq::new(cs.len(), |i: int| ((cs[i].0 as u64, 0u64, 0u64), i as usize)),
            keyed@ == keyed_spec.take(i as int),
        decreases c@.len() - i,
    {
        keyed.push(((c[i].0 as u64, 0, 0), i));
        assert(keyed_spec.take(i + 1) =~= keyed_spec.take(i as int).push(keyed_spec[i as int]));
        i = i + 1;
    }
    assert(keyed_spec.take(cs.len() as int) =~= keyed_spec);
    let sorted = key_sort(keyed);
    proof {
        lemma_sorted_len(keyed_spec, keyed_spec.len() as int);
        lemma_sorted_members(keyed_spec, keyed_spec.len() as int);
    }
    let ghost sp = Seq::new(sorted@.len(), |j: int| cs[sorted@[j].1 as int]);
    let mut r: Vec<(usize, String)> = Vec::new();
    let mut j: usize = 0;
    while j < sorted.len()
        invariant
            j <= sorted@.len(),
            sorted@ == key_sorted(keyed_spec),
            sorted@.len() == cs.len(),
            cands_are(c@, cs),
            keyed_spec == Seq::new(cs.len(), |i: int| ((cs[i].0 as u64, 0u64, 0u64), i as usize)),
            forall|jj: int| 0 <= jj < sorted@.len() ==> exists|i: int| 0 <= i < cs.len() && #[trigger] sorted@[jj] == keyed_spec[i],
            sp == Seq::new(sorted@.len(), |jj: int| cs[sorted@[jj].1 as int]),
            cands_are(r@, sp.take(j as int)),
        decreases sorted@.len() - j,
    {
        let ghost i0 = choose|i: int| 0 <= i < cs.len() && sorted@[j as int] == keyed_spec[i];
        assert(sorted@[j as int].1 == i0 as usize);
        let k = sorted[j].1;
        r.push((c[k].0, c[k].1.clone()));
        assert(sp.take(j + 1) =~= sp.take(j as int).push(sp[j as int]));
        j = j + 1;
    }
    assert(sp.take(sp.len() as int) =~= sp);
    r
}

/// The capacities without their pause limits.
fn capacities_of(caps: &[PressureCapacity]) -> (r: Vec<WorkerCapacity>)
    ensures
        r@ == Seq::new(caps@.len(), |i: int| caps@[i].capacity),
{
    let mut r: Vec<WorkerCapacity> = Vec::new();
    let mut i: usize = 0;
    while i < caps.len()
        invariant
            i <= caps@.len(),
            r@ == Seq::new(i as nat, |k: int| caps@[k].capacity),
        decreases caps@.len() - i,
    {
        r.push(caps[i].capacity);
        assert(r@ =~= Seq::new((i + 1) as nat, |k: int| caps@[k].capacity));
        i = i + 1;
    }
    r
}

/// The keys of `keys`, as plain values, are `ks`.
pub open spec fn keys_are(keys: Seq<String>, ks: Seq<Seq<char>>) -> bool {
    &&& keys.len() == ks.len()
    &&& forall|k: int| 0 <= k < keys.len() ==> #[trigger] keys[k]@ == ks[k]
}

impl SessionAwareAdmissionControl {
    /// The internal structures are consistent: program keys and waiting ids
    /// are distinct.
    pub closed spec fn wf(&self) -> bool {
        &&& keys_distinct(program_entries(self.programs))
        &&& self.sessions.wf()
    }

    /// A consistent policy has distinct waiting ids in every session.
    pub proof fn lemma_sessions_wf(&self)
        requires
            self.wf(),
        ensures
            sessions_wf(self@.sessions),
            keys_distinct(self@.programs),
    {
        self.sessions.lemma_wf();
    }

    /// A policy with no programs; the first reconcile pass runs one scheduler
    /// interval after `now`.
    pub fn new(timing: PolicyTiming, now: u64) -> (r: Self)
        ensures
            r.wf(),
            r@ == (PolicyView {
                timing,
                programs: Seq::empty(),
                requests: Map::empty(),
                sessions: Map::empty(),
                next_tick: now.saturating_add(timing.scheduler_interval_nanos),
            }),
            super::laws::queues_owned(r@),
    {
        let r = SessionAwareAdmissionControl {
            timing,
            programs: program_map_new(),
            requests: HashMap::new(),
            sessions: SessionTable::new(),
            next_tick: now.saturating_add(timing.scheduler_interval_nanos),
        };
        assert(r@.requests =~= Map::<u64, RequestView>::empty());
        r
    }

    /// The program of session `s`.
    pub fn program(&self, s: &str) -> (r: Option<Program>)
        requires
            self.wf(),
        ensures
            r == prog_get(self@.programs, s@),
    {
        match program_map_index_of(&self.programs, s) {
            Some(i) => {
                proof {
                    lemma_key_index(program_entries(self.programs), i as int);
                }
                let (_, p) = program_map_get_index(&self.programs, i).unwrap();
                Some(p)
            },
            None => None,
        }
    }

    /// The number of programs.
    pub fn program_count(&self) -> (r: usize)
        ensures
            r == self@.programs.len(),
    {
        program_map_len(&self.programs)
    }

    /// The request session `s` currently serves.
    pub fn session_current(&self, s: &String) -> (r: Option<AdmissionId>)
        requires
            self.wf(),
        ensures
            r == match current_of(self@.sessions, s@) {
                Some(n) => Some(admission_id(n)),
                None => None,
            },
    {
        match self.sessions.current(s) {
            Some(n) => Some(AdmissionId { value: n }),
            None => None,
        }
    }

    /// Sets the program of session `s` to `p`: a restored or seeded program.
    pub fn insert_program(&mut self, s: String, p: Program)
        requires
            old(self).wf(),
        ensures
            final(self).wf(),
            final(self)@ == (PolicyView { programs: prog_set(old(self)@.programs, s@, p), ..old(self)@ }),
    {
        self.put_program(s, p);
    }

    fn put_program(&mut self, s: String, p: Program)
        requires
            old(self).wf(),
        ensures
            final(self).wf(),
            final(self)@ == (PolicyView { programs: prog_set(old(self)@.programs, s@, p), ..old(self)@ }),
    {
        let ghost k = s@;
        program_map_insert(&mut self.programs, s, p);
        proof {
            let e = program_entries(old(self).programs);
            if has_key(e, k) {
                assert(e[key_index(e, k)].0 == k);
                assert(program_entries(self.programs) == e.update(key_index(e, k), (k, p)));
            }
        }
        assert(self@ =~= PolicyView { programs: prog_set(old(self)@.programs, k, p), ..old(self)@ });
    }

    fn drop_program(&mut self, s: &String)
        requires
            old(self).wf(),
        ensures
            final(self).wf(),
            final(self)@ == (PolicyView { programs: prog_del(old(self)@.programs, s@), ..old(self)@ }),
    {
        let _ = program_map_shift_remove(&mut self.programs, s.as_str());
        assert(self@ =~= PolicyView { programs: prog_del(old(self)@.programs, s@), ..old(self)@ });
    }

    /// Pauses session `s`'s program at `now`.
    fn defer_request(&mut self, s: &String, now: u64, preserve_assignment: bool)
        requires
            old(self).wf(),
        ensures
            final(self).wf(),
            final(self)@ == (PolicyView {
                programs: defer_program(old(self)@.programs, s@, now, preserve_assignment),
                ..old(self)@
            }),
    {
        match self.program(s.as_str()) {
            None => {},
            Some(p) => {
                let fp = p.footprint();
                let q = Program {
                    state: ProgramState::Suspended { footprint: fp, since: now },
                    assigned_worker: if preserve_assignment {
                        p.assigned_worker
                    } else {
                        None
                    },
                    step_count: p.step_count,
                };
                self.put_program(s.clone(), q);
            },
        }
    }

    /// Sets the sticky worker of session `s`'s program.
    fn assign(&mut self, s: &String, w: Option<WorkerWithDpRank>)
        requires
            old(self).wf(),
        ensures
            final(self).wf(),
            final(self)@ == (PolicyView { programs: assign_program(old(self)@.programs, s@, w), ..old(self)@ }),
    {
        match self.program(s.as_str()) {
            None => {},
            Some(p) => {
                self.put_program(s.clone(), Program { assigned_worker: w, ..p });
            },
        }
    }

    /// Pauses session `s`'s program if it is idle and resident.
    fn suspend_idle(&mut self, s: &String)
        requires
            old(self).wf(),
        ensures
            final(self).wf(),
            final(self)@ == (PolicyView { programs: suspend_idle_program(old(self)@.programs, s@), ..old(self)@ }),
    {
        match self.program(s.as_str()) {
            None => {},
            Some(p) => {
                match p.state {
                    ProgramState::IdleResident { footprint, last_activity } => {
                        self.put_program(
                            s.clone(),
                            Program {
                                state: ProgramState::Suspended { footprint, since: last_activity },
                                assigned_worker: None,
                                step_count: p.step_count,
                            },
                        );
                    },
                    _ => {},
                }
            },
        }
    }

    fn set_request(&mut self, id: u64, r: RequestState)
        requires
            old(self).wf(),
        ensures
            final(self).wf(),
            final(self)@ == (PolicyView { requests: old(self)@.requests.insert(id, request_view(r)), ..old(self)@ }),
    {
        let ghost rv = request_view(r);
        self.requests.insert(id, r);
        assert(self@.requests =~= old(self)@.requests.insert(id, rv));
    }

    fn set_current(&mut self, s: &String, c: Option<u64>)
        requires
            old(self).wf(),
        ensures
            final(self).wf(),
            final(self)@ == (PolicyView { sessions: with_current(old(self)@.sessions, s@, c), ..old(self)@ }),
    {
        self.sessions.set_current(s, c);
    }

    /// Begins a session-final request: its session's program is released.
    fn begin_session_final(&mut self, id: u64, s: &String, elig: &WorkerEligibilitySnapshot) -> (d: AdmissionDecision)
        requires
            old(self).wf(),
        ensures
            final(self).wf(),
            (final(self)@, d) == begin_final(old(self)@, id, s@, *elig),
    {
        let assigned = match self.program(s.as_str()) {
            Some(p) => p.assigned_worker,
            None => None,
        };
        self.drop_program(s);
        match self.requests.get(&id) {
            Some(r) => {
                let r2 = RequestState {
                    session_id: r.session_id.clone(),
                    session_final: r.session_final,
                    context_tokens: r.context_tokens,
                    prior: None,
                };
                self.set_request(id, r2);
            },
            None => {},
        }
        self.set_current(s, Some(id));
        proof {
            let v = old(self)@;
            let (v2, d2) = begin_final(v, id, s@, *elig);
            assert(self@.requests =~= v2.requests);
            assert(self@ =~= v2);
        }
        match assigned {
            Some(w) => {
                if elig.structurally_allows(w) {
                    AdmissionDecision::Ready(WorkerPlacement::Exact(w))
                } else {
                    AdmissionDecision::Ready(WorkerPlacement::Any)
                }
            },
            None => AdmissionDecision::Ready(WorkerPlacement::Any),
        }
    }

    fn any_program_suspended(&self) -> (r: bool)
        ensures
            r == any_suspended(self@.programs),
    {
        let n = program_map_len(&self.programs);
        let mut i: usize = 0;
        while i < n
            invariant
                n == self@.programs.len(),
                i <= n,
                forall|j: int| 0 <= j < i ==> !is_suspended(#[trigger] self@.programs[j].1),
            decreases n - i,
        {
            let (_, p) = program_map_get_index(&self.programs, i).unwrap();
            if p.is_suspended() {
                return true;
            }
            i = i + 1;
        }
        false
    }

    /// Places a non-final turn of session `s` whose program now runs.
    fn place(
        &mut self,
        s: &String,
        now: u64,
        caps: &[WorkerCapacity],
        elig: &WorkerEligibilitySnapshot,
        tokens: usize,
        assigned: Option<WorkerWithDpRank>,
        was_new: bool,
        usage: &WorkerTable,
        running: &WorkerTable,
        Ghost(ups): Ghost<Programs>,
    ) -> (d: AdmissionDecision)
        requires
            old(self).wf(),
            usage.wf(),
            running.wf(),
            forall|w: WorkerWithDpRank| #[trigger] get0(usage@, w) == usage_of(ups, w, false),
            forall|w: WorkerWithDpRank| #[trigger] get0(running@, w) == usage_of(ups, w, true),
        ensures
            final(self).wf(),
            (final(self)@, d) == place_turn(old(self)@, ups, s@, now, caps@, *elig, tokens, assigned, was_new),
    {
        let sticky = match assigned {
            Some(w) => elig.structurally_allows(w),
            None => false,
        };
        if sticky {
            let w = assigned.unwrap();
            let ok = elig.allows(w) && match find_capacity(caps, w) {
                None => true,
                Some(cap) => fits_device_exec(&cap, running.get_or_zero(w), tokens),
            };
            if ok {
                return AdmissionDecision::Ready(WorkerPlacement::Exact(w));
            }
            self.defer_request(s, now, true);
            return AdmissionDecision::Defer;
        }
        if assigned.is_some() {
            self.assign(s, None);
        }
        if elig.has_structural_worker() && !elig.has_available_worker() {
            self.defer_request(s, now, false);
            return AdmissionDecision::Defer;
        }
        if was_new && self.any_program_suspended() {
            self.defer_request(s, now, false);
            return AdmissionDecision::Defer;
        }
        if !any_allowed(caps, elig) {
            return AdmissionDecision::Ready(WorkerPlacement::Any);
        }
        match choose_placement(caps, elig, usage, running, tokens, Ghost(ups)) {
            Some(w) => {
                self.assign(s, Some(w));
                AdmissionDecision::Ready(WorkerPlacement::Exact(w))
            },
            None => {
                self.defer_request(s, now, false);
                AdmissionDecision::Defer
            },
        }
    }

    /// Request `id` becomes the one session `s` serves.
    fn begin(
        &mut self,
        id: u64,
        s: &String,
        now: u64,
        caps: &[WorkerCapacity],
        elig: &WorkerEligibilitySnapshot,
    ) -> (d: AdmissionDecision)
        requires
            old(self).wf(),
        ensures
            final(self).wf(),
            (final(self)@, d) == begin_request(old(self)@, id, s@, now, caps@, *elig),
    {
        let (session_final, ctx, rsid) = match self.requests.get(&id) {
            None => {
                return AdmissionDecision::Defer;
            },
            Some(r) => (r.session_final, r.context_tokens, r.session_id.clone()),
        };
        if session_final {
            return self.begin_session_final(id, s, elig);
        }
        let prior = self.program(s.as_str());
        let was_new = prior.is_none();
        let was_suspended = match prior {
            Some(p) => p.is_suspended(),
            None => false,
        };
        let assigned = match prior {
            Some(p) => p.assigned_worker,
            None => None,
        };
        let step = match prior {
            Some(p) => p.step_count.saturating_add(1),
            None => 1,
        };
        let (usage, running) = worker_usages_of(&self.programs);
        let ghost ps0 = self@.programs;
        let ghost v = old(self)@;
        self.set_request(id, RequestState { session_id: rsid, session_final: false, context_tokens: ctx, prior });
        self.set_current(s, Some(id));
        self.put_program(s.clone(), Program::running(ctx, assigned, step));
        proof {
            let req = v.requests[id];
            assert(self@.requests == v.requests.insert(id, RequestView { prior, ..req }));
        }
        if was_suspended {
            self.defer_request(s, now, true);
            return AdmissionDecision::Defer;
        }
        self.place(s, now, caps, elig, ctx, assigned, was_new, &usage, &running, Ghost(ps0))
    }

    /// Offers a request to the policy (the router's admission call). `caps`
    /// are the workers' capacities and `elig` the request's eligibility, both
    /// sampled now.
    pub fn admit_request(
        &mut self,
        request: &AdmissionRequest,
        now: u64,
        caps: &[WorkerCapacity],
        elig: &WorkerEligibilitySnapshot,
    ) -> (d: AdmissionDecision)
        requires
            old(self).wf(),
        ensures
            final(self).wf(),
            (final(self)@, d) == offer(
                old(self)@,
                request.id.value,
                match request.session_id {
                    Some(s) => Some(s@),
                    None => None,
                },
                request.session_final,
                request.context_tokens,
                now,
                caps@,
                *elig,
            ),
    {
        match &request.session_id {
            None => AdmissionDecision::Bypass,
            Some(sid) => {
                let id = request.id.value;
                let busy = self.sessions.current(sid).is_some();
                self.set_request(
                    id,
                    RequestState {
                        session_id: sid.clone(),
                        session_final: request.session_final,
                        context_tokens: request.context_tokens,
                        prior: None,
                    },
                );
                if busy {
                    self.sessions.push_waiting(sid, id);
                    return AdmissionDecision::Defer;
                }
                self.begin(id, sid, now, caps, elig)
            },
        }
    }

    /// The router sent request `id` to `worker`.
    pub fn dispatched(&mut self, id: AdmissionId, worker: WorkerWithDpRank)
        requires
            old(self).wf(),
        ensures
            final(self).wf(),
            final(self)@ == dispatched(old(self)@, id.value, worker),
    {
        let sid = match self.requests.get(&id.value) {
            None => {
                return;
            },
            Some(r) => r.session_id.clone(),
        };
        match self.sessions.current(&sid) {
            Some(c) => {
                if c == id.value {
                    self.assign(&sid, Some(worker));
                }
            },
            None => {},
        }
    }

    /// Session `s` serves its next waiting request, or is forgotten.
    fn promote(
        &mut self,
        s: &String,
        now: u64,
        caps: &[WorkerCapacity],
        elig: &WorkerEligibilitySnapshot,
    ) -> (acts: Vec<AdmissionAction>)
        requires
            old(self).wf(),
        ensures
            final(self).wf(),
            (final(self)@, acts@) == promote_next(old(self)@, s@, now, caps@, *elig),
    {
        match self.sessions.pop_waiting(s) {
            None => {
                self.sessions.remove(s);
                Vec::new()
            },
            Some(nid) => {
                let d = self.begin(nid, s, now, caps, elig);
                match d {
                    AdmissionDecision::Ready(p) => {
                        let mut v = Vec::new();
                        v.push(AdmissionAction { id: AdmissionId { value: nid }, placement: p });
                        proof {
                            assert(v@ =~= seq![admission_action(nid, p)]);
                        }
                        v
                    },
                    _ => Vec::new(),
                }
            },
        }
    }

    fn finish_request(
        &mut self,
        id: u64,
        completed: Option<usize>,
        now: u64,
        caps: &[WorkerCapacity],
        elig: &WorkerEligibilitySnapshot,
    ) -> (acts: Vec<AdmissionAction>)
        requires
            old(self).wf(),
        ensures
            final(self).wf(),
            (final(self)@, acts@) == finish(old(self)@, id, completed, now, caps@, *elig),
    {
        let (sid, sfinal, prior) = match self.requests.get(&id) {
            None => {
                return Vec::new();
            },
            Some(r) => (r.session_id.clone(), r.session_final, r.prior),
        };
        let _ = self.requests.remove(&id);
        proof {
            assert(self@.requests =~= old(self)@.requests.remove(id));
        }
        let is_current = match self.sessions.current(&sid) {
            Some(c) => c == id,
            None => false,
        };
        if !is_current {
            self.sessions.remove_waiting(&sid, id);
            return Vec::new();
        }
        self.set_current(&sid, None);
        if sfinal {
            self.drop_program(&sid);
            return self.promote(&sid, now, caps, elig);
        }
        match completed {
            None => match prior {
                Some(p) => self.put_program(sid.clone(), p),
                None => self.drop_program(&sid),
            },
            Some(ctx) => match self.program(sid.as_str()) {
                None => {},
                Some(p) => {
                    let pause = p.pause_after_completion();
                    self.put_program(
                        sid.clone(),
                        Program { state: ProgramState::IdleResident { footprint: ctx, last_activity: now }, ..p },
                    );
                    if pause {
                        self.suspend_idle(&sid);
                    }
                },
            },
        }
        self.promote(&sid, now, caps, elig)
    }

    /// Request `id` completed with `context_tokens` of context. `elig` is the
    /// eligibility of the request that starts next on its session, if any
    /// (see [`Self::promotion_candidate`]).
    pub fn completed(
        &mut self,
        id: AdmissionId,
        context_tokens: usize,
        now: u64,
        caps: &[WorkerCapacity],
        elig: &WorkerEligibilitySnapshot,
    ) -> (acts: Vec<AdmissionAction>)
        requires
            old(self).wf(),
        ensures
            final(self).wf(),
            (final(self)@, acts@) == finish(old(self)@, id.value, Some(context_tokens), now, caps@, *elig),
    {
        self.finish_request(id.value, Some(context_tokens), now, caps, elig)
    }

    /// Request `id` was cancelled or failed.
    pub fn aborted(
        &mut self,
        id: AdmissionId,
        now: u64,
        caps: &[WorkerCapacity],
        elig: &WorkerEligibilitySnapshot,
    ) -> (acts: Vec<AdmissionAction>)
        requires
            old(self).wf(),
        ensures
            final(self).wf(),
            (final(self)@, acts@) == finish(old(self)@, id.value, None, now, caps@, *elig),
    {
        self.finish_request(id.value, None, now, caps, elig)
    }

    /// The request that finishing `id` would start on its session, if any.
    pub fn promotion_candidate(&self, id: AdmissionId) -> (r: Option<AdmissionId>)
        requires
            self.wf(),
        ensures
            r == match promotion_candidate(self@, id.value) {
                Some(n) => Some(admission_id(n)),
                None => None,
            },
    {
        let sid = match self.requests.get(&id.value) {
            None => {
                return None;
            },
            Some(r) => r.session_id.clone(),
        };
        match self.sessions.current(&sid) {
            Some(c) => {
                if c == id.value {
                    match self.sessions.first_waiting(&sid) {
                        Some(n) => Some(AdmissionId { value: n }),
                        None => None,
                    }
                } else {
                    None
                }
            },
            None => None,
        }
    }

    /// Resumes session `s`'s paused program on `worker`.
    fn resume_program(&mut self, s: &String, worker: Option<WorkerWithDpRank>) -> (acts: Vec<AdmissionAction>)
        requires
            old(self).wf(),
        ensures
            final(self).wf(),
            (final(self)@, acts@) == resume(old(self)@, s@, worker),
    {
        let cur = self.sessions.current(s);
        let ctx = match cur {
            Some(id) => match self.requests.get(&id) {
                None => {
                    return Vec::new();
                },
                Some(r) => Some(r.context_tokens),
            },
            None => None,
        };
        match self.program(s.as_str()) {
            None => Vec::new(),
            Some(p) => match p.state {
                ProgramState::Suspended { footprint, since } => {
                    let state = match ctx {
                        Some(c) => ProgramState::Running { context_tokens: c, pause_after_completion: false },
                        None => ProgramState::IdleResident { footprint, last_activity: since },
                    };
                    self.put_program(s.clone(), Program { state, assigned_worker: worker, step_count: p.step_count });
                    match cur {
                        Some(id) => {
                            let placement = match worker {
                                Some(w) => WorkerPlacement::Exact(w),
                                None => WorkerPlacement::Any,
                            };
                            let mut v = Vec::new();
                            v.push(AdmissionAction { id: AdmissionId { value: id }, placement });
                            proof {
                                assert(v@ =~= seq![admission_action(id, placement_of(worker))]);
                            }
                            v
                        },
                        None => Vec::new(),
                    }
                },
                _ => Vec::new(),
            },
        }
    }

    /// Forgets the programs retained longer than the retention period.
    fn expire_retained(&mut self, now: u64)
        requires
            old(self).wf(),
        ensures
            final(self).wf(),
            final(self)@ == expire(old(self)@, now),
    {
        let ghost e = self@.programs;
        let ghost sess = self@.sessions;
        let n = program_map_len(&self.programs);
        let retention = self.timing.session_retention_nanos;
        let mut i: usize = 0;
        let mut j: usize = 0;
        while i < n
            invariant
                self.wf(),
                n == e.len(),
                i <= n,
                sess == old(self)@.sessions,
                retention == old(self)@.timing.session_retention_nanos,
                e == old(self)@.programs,
                self@ == (PolicyView { programs: self@.programs, ..old(self)@ }),
                j == kept_upto(e, sess, now, retention, i as int).len(),
                self@.programs == kept_upto(e, sess, now, retention, i as int) + e.skip(i as int),
            decreases n - i,
        {
            let ghost kept = kept_upto(e, sess, now, retention, i as int);
            proof {
                lemma_kept_len(e, sess, now, retention, i as int);
            }
            assert(self@.programs[j as int] == e[i as int]);
            let (k, p) = program_map_get_index(&self.programs, j).unwrap();
            let keep = self.sessions.contains(&k) || match p.retained_since() {
                None => true,
                Some(since) => now.saturating_sub(since) < retention,
            };
            assert(keep == keeps(sess, now, retention, e[i as int]));
            if keep {
                assert(kept.push(e[i as int]) + e.skip(i + 1) =~= kept + e.skip(i as int));
                j = j + 1;
            } else {
                program_map_shift_remove_index(&mut self.programs, j);
                assert((kept + e.skip(i as int)).remove(j as int) =~= kept + e.skip(i + 1));
                assert(self@ =~= PolicyView { programs: self@.programs, ..old(self)@ });
            }
            i = i + 1;
        }
        assert(e.skip(n as int) =~= Seq::<(Seq<char>, Program)>::empty());
        assert(self@.programs =~= kept_upto(e, sess, now, retention, n as int));
    }

    /// Whether request `id` is the current request of a session whose
    /// program is paused.
    fn is_deferred_request(&self, id: u64) -> (r: bool)
        requires
            self.wf(),
        ensures
            r == is_deferred(self@, id),
    {
        if !self.requests.contains_key(&id) {
            return false;
        }
        assert(self@.requests.contains_key(id));
        let n = program_map_len(&self.programs);
        let mut j: usize = 0;
        while j < n
            invariant
                self.wf(),
                n == self@.programs.len(),
                j <= n,
                self@.requests.contains_key(id),
                forall|jj: int|
                    0 <= jj < j ==> !(is_suspended(self@.programs[jj].1) && #[trigger] current_of(
                        self@.sessions,
                        self@.programs[jj].0,
                    ) == Some(id)),
            decreases n - j,
        {
            let (k, p) = program_map_get_index(&self.programs, j).unwrap();
            if p.is_suspended() {
                match self.sessions.current(&k) {
                    Some(c) => {
                        if c == id {
                            assert(current_of(self@.sessions, self@.programs[j as int].0) == Some(id));
                            return true;
                        }
                    },
                    None => {},
                }
            }
            j = j + 1;
        }
        false
    }

    /// The positions in `list` of the entries for deferred requests.
    fn deferred_positions(&self, list: &[(AdmissionId, WorkerEligibilitySnapshot)]) -> (r: Vec<usize>)
        requires
            self.wf(),
        ensures
            picks_entries(list@, r@, deferred_list(self@, list@)),
    {
        let mut r: Vec<usize> = Vec::new();
        let mut i: usize = 0;
        while i < list.len()
            invariant
                self.wf(),
                i <= list@.len(),
                picks_entries(list@, r@, deferred_upto(self@, list@, i as int)),
            decreases list@.len() - i,
        {
            let ghost d = deferred_upto(self@, list@, i as int);
            if self.is_deferred_request(list[i].0.value) {
                r.push(i);
                assert(picks_entries(list@, r@, d.push(list@[i as int])));
            }
            i = i + 1;
        }
        r
    }

    /// The position in `list` of the eligibility of session `s`'s current
    /// request in `d`.
    fn session_elig_position(
        &self,
        list: &[(AdmissionId, WorkerEligibilitySnapshot)],
        dl: &Vec<usize>,
        Ghost(d): Ghost<Seq<(AdmissionId, WorkerEligibilitySnapshot)>>,
        s: &String,
    ) -> (r: Option<usize>)
        requires
            self.wf(),
            picks_entries(list@, dl@, d),
        ensures
            match r {
                Some(j) => j < list@.len() && session_elig(self@.sessions, d, s@) == Some(list@[j as int].1),
                None => session_elig(self@.sessions, d, s@) is None,
            },
    {
        match self.sessions.current(s) {
            Some(id) => elig_position(list, dl, Ghost(d), id),
            None => None,
        }
    }

    /// Drops the worker of programs whose deferred request may never use it.
    fn clear_stale_assignments(
        &mut self,
        list: &[(AdmissionId, WorkerEligibilitySnapshot)],
        dl: &Vec<usize>,
        Ghost(d): Ghost<Seq<(AdmissionId, WorkerEligibilitySnapshot)>>,
    )
        requires
            old(self).wf(),
            picks_entries(list@, dl@, d),
        ensures
            final(self).wf(),
            final(self)@ == (PolicyView {
                programs: clear_stale(old(self)@.programs, old(self)@.sessions, d),
                ..old(self)@
            }),
    {
        let ghost e = self@.programs;
        let ghost sess = self@.sessions;
        let n = program_map_len(&self.programs);
        let mut i: usize = 0;
        while i < n
            invariant
                self.wf(),
                picks_entries(list@, dl@, d),
                n == e.len(),
                i <= n,
                e == old(self)@.programs,
                sess == old(self)@.sessions,
                self@ == (PolicyView { programs: self@.programs, ..old(self)@ }),
                self@.programs.len() == n,
                forall|k: int| 0 <= k < i ==> #[trigger] self@.programs[k] == (e[k].0, cleared(sess, d, e[k])),
                forall|k: int| i <= k < n ==> #[trigger] self@.programs[k] == e[k],
            decreases n - i,
        {
            let (k, p) = program_map_get_index(&self.programs, i).unwrap();
            let c = match p.assigned_worker {
                Some(w) => match self.session_elig_position(list, dl, Ghost(d), &k) {
                    Some(jj) => if !list[jj].1.structurally_allows(w) {
                        Program { assigned_worker: None, ..p }
                    } else {
                        p
                    },
                    None => p,
                },
                None => p,
            };
            assert(c == cleared(sess, d, e[i as int]));
            proof {
                lemma_key_index(self@.programs, i as int);
            }
            let ghost before = self@.programs;
            program_map_insert(&mut self.programs, k, c);
            assert(self@.programs == before.update(i as int, (e[i as int].0, c)));
            assert(self@ =~= PolicyView { programs: self@.programs, ..old(self)@ });
            i = i + 1;
        }
        assert(self@.programs =~= clear_stale(e, sess, d));
    }

    /// The sessions of the paused programs, in order.
    fn suspended_key_list(&self) -> (r: Vec<String>)
        ensures
            keys_are(r@, suspended_keys(self@.programs)),
    {
        let n = program_map_len(&self.programs);
        let mut r: Vec<String> = Vec::new();
        let mut i: usize = 0;
        while i < n
            invariant
                n == self@.programs.len(),
                i <= n,
                keys_are(r@, suspended_keys_upto(self@.programs, i as int)),
            decreases n - i,
        {
            let (k, p) = program_map_get_index(&self.programs, i).unwrap();
            if p.is_suspended() {
                r.push(k);
            }
            i = i + 1;
        }
        r
    }

    fn unmetered_choice_of(
        &self,
        caps: &[PressureCapacity],
        list: &[(AdmissionId, WorkerEligibilitySnapshot)],
        dl: &Vec<usize>,
        Ghost(d): Ghost<Seq<(AdmissionId, WorkerEligibilitySnapshot)>>,
        s: &String,
    ) -> (r: Option<Option<WorkerWithDpRank>>)
        requires
            self.wf(),
            picks_entries(list@, dl@, d),
        ensures
            r == unmetered_choice(self@, caps@, d, s@),
    {
        let p = match self.program(s.as_str()) {
            None => {
                return None;
            },
            Some(p) => p,
        };
        let assigned = p.assigned_worker;
        match self.session_elig_position(list, dl, Ghost(d), s) {
            Some(j) => {
                let snap = &list[j].1;
                if !snap.has_available_worker() {
                    None
                } else if assigned.is_some() && snap.structurally_allows(assigned.unwrap()) {
                    let w = assigned.unwrap();
                    if !snap.allows(w) || caps_have(caps, w) {
                        None
                    } else {
                        Some(assigned)
                    }
                } else if caps_any_allows(caps, snap) {
                    None
                } else {
                    Some(None)
                }
            },
            None => {
                if (assigned.is_some() && caps_have(caps, assigned.unwrap())) || (assigned.is_none() && caps.len() > 0) {
                    None
                } else {
                    Some(assigned)
                }
            },
        }
    }

    /// Resumes paused programs whose workers report no capacity.
    fn resume_unmetered_programs(
        &mut self,
        caps: &[PressureCapacity],
        list: &[(AdmissionId, WorkerEligibilitySnapshot)],
        dl: &Vec<usize>,
        Ghost(d): Ghost<Seq<(AdmissionId, WorkerEligibilitySnapshot)>>,
    ) -> (acts: Vec<AdmissionAction>)
        requires
            old(self).wf(),
            picks_entries(list@, dl@, d),
        ensures
            final(self).wf(),
            (final(self)@, acts@) == resume_unmetered(
                old(self)@,
                caps@,
                d,
                suspended_keys(old(self)@.programs),
                suspended_keys(old(self)@.programs).len() as int,
            ),
    {
        let ghost ks = suspended_keys(self@.programs);
        let keys = self.suspended_key_list();
        let mut acts: Vec<AdmissionAction> = Vec::new();
        let mut i: usize = 0;
        while i < keys.len()
            invariant
                self.wf(),
                picks_entries(list@, dl@, d),
                keys_are(keys@, ks),
                i <= keys@.len(),
                ks == suspended_keys(old(self)@.programs),
                (self@, acts@) == resume_unmetered(old(self)@, caps@, d, ks, i as int),
            decreases keys@.len() - i,
        {
            match self.unmetered_choice_of(caps, list, dl, Ghost(d), &keys[i]) {
                Some(w) => {
                    let mut a = self.resume_program(&keys[i], w);
                    acts.append(&mut a);
                },
                None => {},
            }
            i = i + 1;
        }
        acts
    }

    fn required_tokens(&self, s: &String) -> (r: usize)
        requires
            self.wf(),
        ensures
            r == required_of(self@.programs, s@),
    {
        match self.program(s.as_str()) {
            Some(p) => p.footprint(),
            None => 0,
        }
    }

    fn resume_group(&self, s: &String) -> (r: usize)
        requires
            self.wf(),
        ensures
            r == group_of(self@.programs, self@.sessions, s@),
            r <= 2,
    {
        let steps = match self.program(s.as_str()) {
            Some(p) => p.step_count,
            None => 0,
        };
        if steps <= 1 {
            1
        } else if self.sessions.current(s).is_some() {
            0
        } else {
            2
        }
    }

    fn worker_allowed(
        &self,
        list: &[(AdmissionId, WorkerEligibilitySnapshot)],
        dl: &Vec<usize>,
        Ghost(d): Ghost<Seq<(AdmissionId, WorkerEligibilitySnapshot)>>,
        s: &String,
        w: WorkerWithDpRank,
    ) -> (r: bool)
        requires
            self.wf(),
            picks_entries(list@, dl@, d),
        ensures
            r == allows_worker(self@, d, s@, w),
    {
        match self.program(s.as_str()) {
            None => false,
            Some(p) => {
                if p.assigned_worker.is_some() && p.assigned_worker.unwrap() != w {
                    false
                } else if !p.is_suspended() || self.sessions.current(s).is_none() {
                    true
                } else {
                    match self.session_elig_position(list, dl, Ghost(d), s) {
                        None => true,
                        Some(j) => list[j].1.allows(w),
                    }
                }
            },
        }
    }

    fn slot_fits(
        &self,
        list: &[(AdmissionId, WorkerEligibilitySnapshot)],
        dl: &Vec<usize>,
        Ghost(d): Ghost<Seq<(AdmissionId, WorkerEligibilitySnapshot)>>,
        s: &String,
        required: usize,
        busy: bool,
        e: (WorkerWithDpRank, usize),
        dev: &WorkerTable,
        Ghost(df): Ghost<spec_fn(WorkerWithDpRank) -> Option<usize>>,
    ) -> (r: bool)
        requires
            self.wf(),
            picks_entries(list@, dl@, d),
            dev.wf(),
            forall|x: WorkerWithDpRank| #[trigger] table_get(dev@, x) == df(x),
        ensures
            r == fits_slot(self@, d, s@, required, busy, e, df),
    {
        let device_ok = if busy {
            match dev.get(e.0) {
                Some(a) => required <= a,
                None => false,
            }
        } else {
            true
        };
        assert(table_get(dev@, e.0) == df(e.0));
        self.worker_allowed(list, dl, Ghost(d), s, e.0) && required <= e.1 && device_ok
    }

    fn first_slot(
        &self,
        list: &[(AdmissionId, WorkerEligibilitySnapshot)],
        dl: &Vec<usize>,
        Ghost(d): Ghost<Seq<(AdmissionId, WorkerEligibilitySnapshot)>>,
        s: &String,
        required: usize,
        busy: bool,
        l: &Vec<(WorkerWithDpRank, usize)>,
        dev: &WorkerTable,
        Ghost(df): Ghost<spec_fn(WorkerWithDpRank) -> Option<usize>>,
    ) -> (r: Option<usize>)
        requires
            self.wf(),
            picks_entries(list@, dl@, d),
            dev.wf(),
            forall|x: WorkerWithDpRank| #[trigger] table_get(dev@, x) == df(x),
        ensures
            match r {
                Some(i) => i < l@.len() && first_slot_from(self@, d, s@, required, busy, l@, df, 0) == Some(i as int),
                None => first_slot_from(self@, d, s@, required, busy, l@, df, 0) is None,
            },
    {
        let mut i: usize = 0;
        while i < l.len()
            invariant
                self.wf(),
                picks_entries(list@, dl@, d),
                dev.wf(),
                forall|x: WorkerWithDpRank| #[trigger] table_get(dev@, x) == df(x),
                i <= l@.len(),
                first_slot_from(self@, d, s@, required, busy, l@, df, 0) == first_slot_from(
                    self@,
                    d,
                    s@,
                    required,
                    busy,
                    l@,
                    df,
                    i as int,
                ),
            decreases l@.len() - i,
        {
            if self.slot_fits(list, dl, Ghost(d), s, required, busy, l[i], dev, Ghost(df)) {
                return Some(i);
            }
            i = i + 1;
        }
        None
    }

    fn count_fitting_slots(
        &self,
        list: &[(AdmissionId, WorkerEligibilitySnapshot)],
        dl: &Vec<usize>,
        Ghost(d): Ghost<Seq<(AdmissionId, WorkerEligibilitySnapshot)>>,
        s: &String,
        required: usize,
        busy: bool,
        l: &Vec<(WorkerWithDpRank, usize)>,
        dev: &WorkerTable,
        Ghost(df): Ghost<spec_fn(WorkerWithDpRank) -> Option<usize>>,
    ) -> (r: usize)
        requires
            self.wf(),
            picks_entries(list@, dl@, d),
            dev.wf(),
            forall|x: WorkerWithDpRank| #[trigger] table_get(dev@, x) == df(x),
        ensures
            r == count_slots(self@, d, s@, required, busy, l@, df, l@.len() as int),
    {
        let mut i: usize = 0;
        let mut n: usize = 0;
        while i < l.len()
            invariant
                self.wf(),
                picks_entries(list@, dl@, d),
                dev.wf(),
                forall|x: WorkerWithDpRank| #[trigger] table_get(dev@, x) == df(x),
                i <= l@.len(),
                n <= i,
                n == count_slots(self@, d, s@, required, busy, l@, df, i as int),
            decreases l@.len() - i,
        {
            if self.slot_fits(list, dl, Ghost(d), s, required, busy, l[i], dev, Ghost(df)) {
                n = n + 1;
            }
            i = i + 1;
        }
        n
    }

    /// The paused sessions in the order greedy resuming considers them.
    fn order_paused(
        &self,
        list: &[(AdmissionId, WorkerEligibilitySnapshot)],
        dl: &Vec<usize>,
        Ghost(d): Ghost<Seq<(AdmissionId, WorkerEligibilitySnapshot)>>,
        keys: &Vec<String>,
        Ghost(ks): Ghost<Seq<Seq<char>>>,
        slots: &Vec<(WorkerWithDpRank, usize)>,
        dev: &WorkerTable,
        Ghost(df): Ghost<spec_fn(WorkerWithDpRank) -> Option<usize>>,
    ) -> (r: Vec<String>)
        requires
            self.wf(),
            picks_entries(list@, dl@, d),
            dev.wf(),
            forall|x: WorkerWithDpRank| #[trigger] table_get(dev@, x) == df(x),
            keys_are(keys@, ks),
        ensures
            keys_are(r@, paused_order(self@, d, ks, slots@, df)),
    {
        let ghost keyed_spec = Seq::new(ks.len(), |i: int| (paused_key(self@, d, ks[i], slots@, df), i as usize));
        let mut keyed: Vec<(SortKey, usize)> = Vec::new();
        let mut i: usize = 0;
        while i < keys.len()
            invariant
                self.wf(),
                picks_entries(list@, dl@, d),
                dev.wf(),
                forall|x: WorkerWithDpRank| #[trigger] table_get(dev@, x) == df(x),
                keys_are(keys@, ks),
                i <= keys@.len(),
                keyed_spec == Seq::new(ks.len(), |i: int| (paused_key(self@, d, ks[i], slots@, df), i as usize)),
                keyed@ == keyed_spec.take(i as int),
            decreases keys@.len() - i,
        {
            let s = &keys[i];
            let required = self.required_tokens(s);
            let busy = self.sessions.current(s).is_some();
            let group = self.resume_group(s);
            let count = self.count_fitting_slots(list, dl, Ghost(d), s, required, busy, slots, dev, Ghost(df));
            keyed.push(((group as u64, count as u64, required as u64), i));
            assert(keyed_spec.take(i + 1) =~= keyed_spec.take(i as int).push(keyed_spec[i as int]));
            i = i + 1;
        }
        assert(keyed_spec.take(ks.len() as int) =~= keyed_spec);
        let sorted = key_sort(keyed);
        proof {
            lemma_sorted_len(keyed_spec, keyed_spec.len() as int);
            lemma_sorted_members(keyed_spec, keyed_spec.len() as int);
        }
        let ghost order = paused_order(self@, d, ks, slots@, df);
        let mut r: Vec<String> = Vec::new();
        let mut j: usize = 0;
        while j < sorted.len()
            invariant
                j <= sorted@.len(),
                sorted@ == key_sorted(keyed_spec),
                sorted@.len() == ks.len(),
                keys_are(keys@, ks),
                keyed_spec == Seq::new(ks.len(), |i: int| (paused_key(self@, d, ks[i], slots@, df), i as usize)),
                forall|jj: int| 0 <= jj < sorted@.len() ==> exists|i: int| 0 <= i < ks.len() && #[trigger] sorted@[jj] == keyed_spec[i],
                order == Seq::new(sorted@.len(), |jj: int| ks[sorted@[jj].1 as int]),
                keys_are(r@, order.take(j as int)),
            decreases sorted@.len() - j,
        {
            let ghost i0 = choose|i: int| 0 <= i < ks.len() && sorted@[j as int] == keyed_spec[i];
            assert(sorted@[j as int].1 == i0 as usize);
            let k = sorted[j].1;
            r.push(keys[k].clone());
            assert(order.take(j + 1) =~= order.take(j as int).push(order[j as int]));
            j = j + 1;
        }
        assert(order.take(order.len() as int) =~= order);
        r
    }

    /// The picks of greedy resuming, in the order they are accepted.
    fn select_picks(
        &self,
        list: &[(AdmissionId, WorkerEligibilitySnapshot)],
        dl: &Vec<usize>,
        Ghost(d): Ghost<Seq<(AdmissionId, WorkerEligibilitySnapshot)>>,
        order: &Vec<String>,
        Ghost(os): Ghost<Seq<Seq<char>>>,
        slots: &Vec<(WorkerWithDpRank, usize)>,
        dev: &WorkerTable,
        Ghost(df): Ghost<spec_fn(WorkerWithDpRank) -> Option<usize>>,
    ) -> (r: Vec<PickEntry>)
        requires
            self.wf(),
            picks_entries(list@, dl@, d),
            dev.wf(),
            forall|x: WorkerWithDpRank| #[trigger] table_get(dev@, x) == df(x),
            keys_are(order@, os),
        ensures
            picks_match(r@, select(self@, d, os, slots@, df, os.len() as int).2),
    {
        let mut l = copy_slots(slots);
        let mut devt = dev.duplicate();
        let ghost mut dfi = df;
        let mut picks: Vec<PickEntry> = Vec::new();
        let mut i: usize = 0;
        while i < order.len()
            invariant
                self.wf(),
                picks_entries(list@, dl@, d),
                keys_are(order@, os),
                i <= order@.len(),
                devt.wf(),
                forall|x: WorkerWithDpRank| #[trigger] table_get(devt@, x) == dfi(x),
                select(self@, d, os, slots@, df, i as int).0 == l@,
                select(self@, d, os, slots@, df, i as int).1 == dfi,
                picks_match(picks@, select(self@, d, os, slots@, df, i as int).2),
            decreases order@.len() - i,
        {
            let s = &order[i];
            let required = self.required_tokens(s);
            let busy = self.sessions.current(s).is_some();
            let ghost ps_before = select(self@, d, os, slots@, df, i as int).2;
            match self.first_slot(list, dl, Ghost(d), s, required, busy, &l, &devt, Ghost(dfi)) {
                None => {},
                Some(pos) => {
                    proof {
                        lemma_first_slot(self@, d, s@, required, busy, l@, dfi, 0);
                    }
                    let w = l[pos].0;
                    reserve_slot(&mut l, pos, required);
                    take_device_room(&mut devt, Ghost(dfi), w, required, busy);
                    proof {
                        dfi = take_device(dfi, w, required, busy);
                    }
                    let group = self.resume_group(s);
                    picks.push(PickEntry { group, session: s.clone(), required, busy, worker: w });
                    assert(picks_match(picks@, ps_before.push(Pick { group, session: s@, required, busy, worker: w })));
                },
            }
            i = i + 1;
        }
        picks
    }

    /// The workers the picks resume on: repacked from the start when every
    /// pick fits again, otherwise the provisional ones.
    fn repack_workers(
        &self,
        list: &[(AdmissionId, WorkerEligibilitySnapshot)],
        dl: &Vec<usize>,
        Ghost(d): Ghost<Seq<(AdmissionId, WorkerEligibilitySnapshot)>>,
        picks: &Vec<PickEntry>,
        Ghost(ps): Ghost<Seq<Pick>>,
        slots: &Vec<(WorkerWithDpRank, usize)>,
        dev: &WorkerTable,
        Ghost(df): Ghost<spec_fn(WorkerWithDpRank) -> Option<usize>>,
    ) -> (r: Vec<WorkerWithDpRank>)
        requires
            self.wf(),
            picks_entries(list@, dl@, d),
            dev.wf(),
            forall|x: WorkerWithDpRank| #[trigger] table_get(dev@, x) == df(x),
            picks_match(picks@, ps),
        ensures
            r@ == final_workers(self@, d, ps, slots@, df),
            r@.len() == ps.len(),
    {
        let mut l = copy_slots(slots);
        let mut devt = dev.duplicate();
        let ghost mut dfi = df;
        let mut ws: Vec<WorkerWithDpRank> = Vec::new();
        let mut ok = true;
        let mut i: usize = 0;
        while i < picks.len() && ok
            invariant
                self.wf(),
                picks_entries(list@, dl@, d),
                picks_match(picks@, ps),
                i <= picks@.len(),
                devt.wf(),
                forall|x: WorkerWithDpRank| #[trigger] table_get(devt@, x) == dfi(x),
                ok ==> repack(self@, d, ps, slots@, df, i as int) is Some,
                ok ==> (repack(self@, d, ps, slots@, df, i as int)->0).0 == l@,
                ok ==> (repack(self@, d, ps, slots@, df, i as int)->0).1 == dfi,
                ok ==> (repack(self@, d, ps, slots@, df, i as int)->0).2 == ws@,
                ok ==> ws@.len() == i,
                !ok ==> repack(self@, d, ps, slots@, df, i as int) is None,
            decreases picks@.len() - i,
        {
            let p = &picks[i];
            assert(pick_view(picks@[i as int]) == ps[i as int]);
            match self.first_slot(list, dl, Ghost(d), &p.session, p.required, p.busy, &l, &devt, Ghost(dfi)) {
                None => {
                    ok = false;
                },
                Some(pos) => {
                    proof {
                        lemma_first_slot(self@, d, p.session@, p.required, p.busy, l@, dfi, 0);
                    }
                    let w = l[pos].0;
                    reserve_slot(&mut l, pos, p.required);
                    take_device_room(&mut devt, Ghost(dfi), w, p.required, p.busy);
                    proof {
                        dfi = take_device(dfi, w, p.required, p.busy);
                    }
                    ws.push(w);
                },
            }
            i = i + 1;
        }
        if ok {
            ws
        } else {
            proof {
                lemma_repack_fails_on(self@, d, ps, slots@, df, i as int, ps.len() as int);
            }
            let mut provisional: Vec<WorkerWithDpRank> = Vec::new();
            let mut k: usize = 0;
            while k < picks.len()
                invariant
                    picks_match(picks@, ps),
                    k <= picks@.len(),
                    provisional@ == Seq::new(k as nat, |j: int| ps[j].worker),
                decreases picks@.len() - k,
            {
                assert(pick_view(picks@[k as int]) == ps[k as int]);
                provisional.push(picks[k].worker);
                assert(provisional@ =~= Seq::new((k + 1) as nat, |j: int| ps[j].worker));
                k = k + 1;
            }
            provisional
        }
    }

    /// Resumes each pick on its worker and counts its tokens there.
    fn apply_resumes(
        &mut self,
        picks: &Vec<PickEntry>,
        Ghost(ps): Ghost<Seq<Pick>>,
        ws: &Vec<WorkerWithDpRank>,
        usage: &mut WorkerTable,
        running: &mut WorkerTable,
        Ghost(u): Ghost<spec_fn(WorkerWithDpRank) -> usize>,
        Ghost(rf): Ghost<spec_fn(WorkerWithDpRank) -> usize>,
    ) -> (acts: Vec<AdmissionAction>)
        requires
            old(self).wf(),
            picks_match(picks@, ps),
            ws@.len() == ps.len(),
            old(usage).wf(),
            old(running).wf(),
            forall|w: WorkerWithDpRank| #[trigger] get0(old(usage)@, w) == u(w),
            forall|w: WorkerWithDpRank| #[trigger] get0(old(running)@, w) == rf(w),
        ensures
            final(self).wf(),
            final(usage).wf(),
            final(running).wf(),
            final(self)@ == apply_picks(old(self)@, ps, ws@, u, rf, ps.len() as int).0,
            acts@ == apply_picks(old(self)@, ps, ws@, u, rf, ps.len() as int).1,
            forall|w: WorkerWithDpRank| #[trigger] get0(final(usage)@, w) == apply_picks(old(self)@, ps, ws@, u, rf, ps.len() as int).2(w),
            forall|w: WorkerWithDpRank| #[trigger] get0(final(running)@, w) == apply_picks(old(self)@, ps, ws@, u, rf, ps.len() as int).3(w),
    {
        let ghost v0 = self@;
        let ghost mut uf = u;
        let ghost mut rff = rf;
        let mut acts: Vec<AdmissionAction> = Vec::new();
        let mut i: usize = 0;
        while i < picks.len()
            invariant
                self.wf(),
                picks_match(picks@, ps),
                ws@.len() == ps.len(),
                i <= picks@.len(),
                usage.wf(),
                running.wf(),
                forall|w: WorkerWithDpRank| #[trigger] get0(usage@, w) == uf(w),
                forall|w: WorkerWithDpRank| #[trigger] get0(running@, w) == rff(w),
                self@ == apply_picks(v0, ps, ws@, u, rf, i as int).0,
                acts@ == apply_picks(v0, ps, ws@, u, rf, i as int).1,
                uf == apply_picks(v0, ps, ws@, u, rf, i as int).2,
                rff == apply_picks(v0, ps, ws@, u, rf, i as int).3,
            decreases picks@.len() - i,
        {
            let p = &picks[i];
            assert(pick_view(picks@[i as int]) == ps[i as int]);
            let w = ws[i];
            let mut a = self.resume_program(&p.session, Some(w));
            acts.append(&mut a);
            let ghost u0 = usage@;
            usage.add(w, p.required);
            proof {
                assert forall|x: WorkerWithDpRank| #[trigger] get0(usage@, x) == table_add(uf, w, p.required)(x) by {
                    assert(get0(u0, x) == uf(x));
                    assert(get0(u0, w) == uf(w));
                }
                uf = table_add(uf, w, p.required);
            }
            if p.busy {
                let ghost r0 = running@;
                running.add(w, p.required);
                proof {
                    assert forall|x: WorkerWithDpRank| #[trigger] get0(running@, x) == table_add(rff, w, p.required)(x) by {
                        assert(get0(r0, x) == rff(x));
                        assert(get0(r0, w) == rff(w));
                    }
                    rff = table_add(rff, w, p.required);
                }
            }
            i = i + 1;
        }
        acts
    }

    /// Resumes paused programs that fit under the workers' resume ceilings,
    /// counting them in the usage tables.
    fn greedy_resume(
        &mut self,
        caps: &[PressureCapacity],
        list: &[(AdmissionId, WorkerEligibilitySnapshot)],
        dl: &Vec<usize>,
        Ghost(d): Ghost<Seq<(AdmissionId, WorkerEligibilitySnapshot)>>,
        usage: &mut WorkerTable,
        running: &mut WorkerTable,
        Ghost(u): Ghost<spec_fn(WorkerWithDpRank) -> usize>,
        Ghost(rf): Ghost<spec_fn(WorkerWithDpRank) -> usize>,
    ) -> (acts: Vec<AdmissionAction>)
        requires
            old(self).wf(),
            picks_entries(list@, dl@, d),
            old(usage).wf(),
            old(running).wf(),
            forall|w: WorkerWithDpRank| #[trigger] get0(old(usage)@, w) == u(w),
            forall|w: WorkerWithDpRank| #[trigger] get0(old(running)@, w) == rf(w),
        ensures
            final(self).wf(),
            final(usage).wf(),
            final(running).wf(),
            final(self)@ == greedy(old(self)@, caps@, d, u, rf).0,
            acts@ == greedy(old(self)@, caps@, d, u, rf).1,
            forall|w: WorkerWithDpRank| #[trigger] get0(final(usage)@, w) == greedy(old(self)@, caps@, d, u, rf).2(w),
            forall|w: WorkerWithDpRank| #[trigger] get0(final(running)@, w) == greedy(old(self)@, caps@, d, u, rf).3(w),
    {
        let ghost ks = suspended_keys(self@.programs);
        let keys = self.suspended_key_list();
        let slots0 = build_slots(caps, usage, Ghost(u));
        let slots = sort_slots(&slots0);
        if keys.len() == 0 || slots.len() == 0 {
            return Vec::new();
        }
        let dev = build_device(caps, running, Ghost(rf));
        let ghost df = device_table(caps@, rf);
        let order = self.order_paused(list, dl, Ghost(d), &keys, Ghost(ks), &slots, &dev, Ghost(df));
        let ghost os = paused_order(self@, d, ks, slots@, df);
        let picks0 = self.select_picks(list, dl, Ghost(d), &order, Ghost(os), &slots, &dev, Ghost(df));
        let ghost ps0 = select(self@, d, os, slots@, df, os.len() as int).2;
        let picks = sort_picks(&picks0, Ghost(ps0));
        let ghost ps = pick_sort(ps0);
        let ws = self.repack_workers(list, dl, Ghost(d), &picks, Ghost(ps), &slots, &dev, Ghost(df));
        self.apply_resumes(&picks, Ghost(ps), &ws, usage, running, Ghost(u), Ghost(rf))
    }

    /// The sessions whose paused program's request waited at least `timeout`.
    fn timed_out_list(&self, now: u64, timeout: u64) -> (r: Vec<String>)
        requires
            self.wf(),
        ensures
            keys_are(r@, timed_out_upto(self@.programs, self@.sessions, now, timeout, self@.programs.len() as int)),
    {
        let n = program_map_len(&self.programs);
        let mut r: Vec<String> = Vec::new();
        let mut i: usize = 0;
        while i < n
            invariant
                self.wf(),
                n == self@.programs.len(),
                i <= n,
                keys_are(r@, timed_out_upto(self@.programs, self@.sessions, now, timeout, i as int)),
            decreases n - i,
        {
            let (k, p) = program_map_get_index(&self.programs, i).unwrap();
            let late = self.sessions.current(&k).is_some() && match p.suspended_since() {
                Some(since) => now.saturating_sub(since) >= timeout,
                None => false,
            };
            if late {
                r.push(k);
            }
            i = i + 1;
        }
        r
    }

    fn waits_for_worker(
        &self,
        list: &[(AdmissionId, WorkerEligibilitySnapshot)],
        dl: &Vec<usize>,
        Ghost(d): Ghost<Seq<(AdmissionId, WorkerEligibilitySnapshot)>>,
        s: &String,
    ) -> (r: bool)
        requires
            self.wf(),
            picks_entries(list@, dl@, d),
        ensures
            r == waits_for_available(self@, d, s@),
    {
        match self.program(s.as_str()) {
            None => false,
            Some(p) => {
                if !p.is_suspended() {
                    false
                } else {
                    match self.session_elig_position(list, dl, Ghost(d), s) {
                        Some(j) => list[j].1.has_structural_worker() && !list[j].1.has_available_worker(),
                        None => false,
                    }
                }
            },
        }
    }

    /// Resumes, on any worker, paused programs whose request waited too long.
    fn force_timed_out(
        &mut self,
        list: &[(AdmissionId, WorkerEligibilitySnapshot)],
        dl: &Vec<usize>,
        Ghost(d): Ghost<Seq<(AdmissionId, WorkerEligibilitySnapshot)>>,
        now: u64,
    ) -> (acts: Vec<AdmissionAction>)
        requires
            old(self).wf(),
            picks_entries(list@, dl@, d),
        ensures
            final(self).wf(),
            ({
                let forced = timed_out_upto(
                    old(self)@.programs,
                    old(self)@.sessions,
                    now,
                    old(self)@.timing.resume_timeout_nanos,
                    old(self)@.programs.len() as int,
                );
                (final(self)@, acts@) == force_resume(old(self)@, d, forced, forced.len() as int)
            }),
    {
        let ghost v0 = self@;
        let ghost forced = timed_out_upto(
            self@.programs,
            self@.sessions,
            now,
            self@.timing.resume_timeout_nanos,
            self@.programs.len() as int,
        );
        let keys = self.timed_out_list(now, self.timing.resume_timeout_nanos);
        let mut acts: Vec<AdmissionAction> = Vec::new();
        let mut i: usize = 0;
        while i < keys.len()
            invariant
                self.wf(),
                picks_entries(list@, dl@, d),
                keys_are(keys@, forced),
                i <= keys@.len(),
                (self@, acts@) == force_resume(v0, d, forced, i as int),
            decreases keys@.len() - i,
        {
            if !self.waits_for_worker(list, dl, Ghost(d), &keys[i]) {
                let mut a = self.resume_program(&keys[i], None);
                acts.append(&mut a);
            }
            i = i + 1;
        }
        acts
    }

    /// The unsorted candidates of worker `w`.
    fn candidate_entries(&self, w: WorkerWithDpRank, idle: bool) -> (r: Vec<(usize, String)>)
        requires
            self.wf(),
        ensures
            cands_are(r@, candidates_upto(self@.programs, w, idle, self@.programs.len() as int)),
    {
        let n = program_map_len(&self.programs);
        let mut r: Vec<(usize, String)> = Vec::new();
        let mut i: usize = 0;
        while i < n
            invariant
                self.wf(),
                n == self@.programs.len(),
                i <= n,
                cands_are(r@, candidates_upto(self@.programs, w, idle, i as int)),
            decreases n - i,
        {
            let (k, p) = program_map_get_index(&self.programs, i).unwrap();
            let kind = if idle {
                p.is_idle_resident()
            } else {
                p.is_running()
            };
            if !p.is_suspended() && p.assigned_worker == Some(w) && !p.pause_after_completion() && kind {
                r.push((p.footprint(), k));
            }
            i = i + 1;
        }
        r
    }

    /// Tokens on `w` of programs already marked to pause.
    fn marked_on(&self, w: WorkerWithDpRank) -> (r: usize)
        requires
            self.wf(),
        ensures
            r == marked_tokens(self@.programs, w, self@.programs.len() as int),
    {
        let n = program_map_len(&self.programs);
        let mut t: usize = 0;
        let mut i: usize = 0;
        while i < n
            invariant
                self.wf(),
                n == self@.programs.len(),
                i <= n,
                t == marked_tokens(self@.programs, w, i as int),
            decreases n - i,
        {
            let (_, p) = program_map_get_index(&self.programs, i).unwrap();
            if !p.is_suspended() && p.assigned_worker == Some(w) && p.pause_after_completion() {
                t = t.saturating_add(p.footprint());
            }
            i = i + 1;
        }
        t
    }

    /// What pausing needs to know of each capacity's worker.
    fn pressure_plans(&self, caps: &[PressureCapacity]) -> (r: Vec<PressurePlan>)
        requires
            self.wf(),
        ensures
            r@.len() == caps@.len(),
            forall|k: int| 0 <= k < r@.len() ==> #[trigger] plan_matches(r@[k], self@.programs, caps@[k].capacity.worker),
    {
        let mut r: Vec<PressurePlan> = Vec::new();
        let mut i: usize = 0;
        while i < caps.len()
            invariant
                self.wf(),
                i <= caps@.len(),
                r@.len() == i,
                forall|k: int| 0 <= k < i ==> #[trigger] plan_matches(r@[k], self@.programs, caps@[k].capacity.worker),
            decreases caps@.len() - i,
        {
            let w = caps[i].capacity.worker;
            let ghost ci = candidates_upto(self@.programs, w, true, self@.programs.len() as int);
            let ghost cr = candidates_upto(self@.programs, w, false, self@.programs.len() as int);
            let idle0 = self.candidate_entries(w, true);
            let running0 = self.candidate_entries(w, false);
            let idle = sort_candidates(&idle0, Ghost(ci));
            let running = sort_candidates(&running0, Ghost(cr));
            let marked = self.marked_on(w);
            r.push(PressurePlan { idle, running, marked });
            i = i + 1;
        }
        r
    }

    /// Pauses idle candidates of `w` while its usage is above `target`.
    fn pause_idle_on(
        &mut self,
        w: WorkerWithDpRank,
        target: usize,
        cands: &Vec<(usize, String)>,
        Ghost(cs): Ghost<Seq<(usize, Seq<char>)>>,
        usage: &mut WorkerTable,
        Ghost(u): Ghost<spec_fn(WorkerWithDpRank) -> usize>,
    ) -> (count: usize)
        requires
            old(self).wf(),
            cands_are(cands@, cs),
            old(usage).wf(),
            forall|x: WorkerWithDpRank| #[trigger] get0(old(usage)@, x) == u(x),
        ensures
            final(self).wf(),
            final(usage).wf(),
            final(self)@ == pause_idle(old(self)@, w, target, cs, u, cs.len() as int).0,
            forall|x: WorkerWithDpRank| #[trigger] get0(final(usage)@, x) == pause_idle(old(self)@, w, target, cs, u, cs.len() as int).1(x),
            count == pause_idle(old(self)@, w, target, cs, u, cs.len() as int).2,
    {
        let ghost v0 = self@;
        let ghost mut uf = u;
        let mut count: usize = 0;
        let mut i: usize = 0;
        while i < cands.len()
            invariant
                self.wf(),
                cands_are(cands@, cs),
                i <= cands@.len(),
                usage.wf(),
                forall|x: WorkerWithDpRank| #[trigger] get0(usage@, x) == uf(x),
                self@ == pause_idle(v0, w, target, cs, u, i as int).0,
                uf == pause_idle(v0, w, target, cs, u, i as int).1,
                count == pause_idle(v0, w, target, cs, u, i as int).2,
            decreases cands@.len() - i,
        {
            let s = &cands[i].1;
            if usage.get_or_zero(w) > target {
                match self.program(s.as_str()) {
                    None => {},
                    Some(p) => {
                        let used = p.footprint();
                        self.suspend_idle(s);
                        let ghost u0 = usage@;
                        usage.sub(w, used);
                        count = count.saturating_add(1);
                        proof {
                            assert forall|x: WorkerWithDpRank| #[trigger] get0(usage@, x) == table_sub(uf, w, used)(x) by {
                                assert(get0(u0, x) == uf(x));
                                assert(get0(u0, w) == uf(w));
                            }
                            uf = table_sub(uf, w, used);
                        }
                    },
                }
            }
            i = i + 1;
        }
        count
    }

    /// Marks running candidates to pause after their turn while `projected`
    /// stays above `target`.
    fn mark_running_on(
        &mut self,
        target: usize,
        cands: &Vec<(usize, String)>,
        Ghost(cs): Ghost<Seq<(usize, Seq<char>)>>,
        projected: usize,
    ) -> (count: usize)
        requires
            old(self).wf(),
            cands_are(cands@, cs),
        ensures
            final(self).wf(),
            final(self)@ == mark_running(old(self)@, target, cs, projected, cs.len() as int).0,
            count == mark_running(old(self)@, target, cs, projected, cs.len() as int).2,
    {
        let ghost v0 = self@;
        let mut pr = projected;
        let mut count: usize = 0;
        let mut i: usize = 0;
        while i < cands.len()
            invariant
                self.wf(),
                cands_are(cands@, cs),
                i <= cands@.len(),
                (self@, pr, count) == mark_running(v0, target, cs, projected, i as int),
            decreases cands@.len() - i,
        {
            let (tokens, s) = (cands[i].0, &cands[i].1);
            if pr > target {
                match self.program(s.as_str()) {
                    Some(p) => {
                        match p.state {
                            ProgramState::Running { context_tokens, pause_after_completion } => {
                                self.put_program(
                                    s.clone(),
                                    Program {
                                        state: ProgramState::Running { context_tokens, pause_after_completion: true },
                                        ..p
                                    },
                                );
                                if !pause_after_completion {
                                    pr = pr.saturating_sub(tokens);
                                    count = count.saturating_add(1);
                                }
                            },
                            _ => {},
                        }
                    },
                    None => {},
                }
            }
            i = i + 1;
        }
        count
    }

    /// Relieves the worker of each capacity, in order.
    fn relieve_workers(
        &mut self,
        caps: &[PressureCapacity],
        plans: &Vec<PressurePlan>,
        usage: &mut WorkerTable,
        Ghost(u): Ghost<spec_fn(WorkerWithDpRank) -> usize>,
        Ghost(ps0): Ghost<Programs>,
    ) -> (counts: (usize, usize))
        requires
            old(self).wf(),
            plans@.len() == caps@.len(),
            forall|k: int| 0 <= k < plans@.len() ==> #[trigger] plan_matches(plans@[k], ps0, caps@[k].capacity.worker),
            old(usage).wf(),
            forall|x: WorkerWithDpRank| #[trigger] get0(old(usage)@, x) == u(x),
        ensures
            final(self).wf(),
            final(usage).wf(),
            final(self)@ == relieve_all(old(self)@, ps0, caps@, u, caps@.len() as int).0,
            forall|x: WorkerWithDpRank| #[trigger] get0(final(usage)@, x) == relieve_all(old(self)@, ps0, caps@, u, caps@.len() as int).1(x),
            counts.0 == relieve_all(old(self)@, ps0, caps@, u, caps@.len() as int).2,
            counts.1 == relieve_all(old(self)@, ps0, caps@, u, caps@.len() as int).3,
    {
        let ghost v0 = self@;
        let ghost mut uf = u;
        let mut paused_total: usize = 0;
        let mut marked_total: usize = 0;
        let mut i: usize = 0;
        while i < caps.len()
            invariant
                self.wf(),
                plans@.len() == caps@.len(),
                forall|k: int| 0 <= k < plans@.len() ==> #[trigger] plan_matches(plans@[k], ps0, caps@[k].capacity.worker),
                i <= caps@.len(),
                usage.wf(),
                forall|x: WorkerWithDpRank| #[trigger] get0(usage@, x) == uf(x),
                self@ == relieve_all(v0, ps0, caps@, u, i as int).0,
                uf == relieve_all(v0, ps0, caps@, u, i as int).1,
                paused_total == relieve_all(v0, ps0, caps@, u, i as int).2,
                marked_total == relieve_all(v0, ps0, caps@, u, i as int).3,
            decreases caps@.len() - i,
        {
            let cap = caps[i];
            let w = cap.capacity.worker;
            let plan = &plans[i];
            assert(plan_matches(plans@[i as int], ps0, w));
            if usage.get_or_zero(w) > cap.threshold_tokens {
                let ghost ci = candidates(ps0, w, true);
                let ghost vi = self@;
                let paused = self.pause_idle_on(w, cap.target_tokens, &plan.idle, Ghost(ci), usage, Ghost(uf));
                proof {
                    uf = pause_idle(vi, w, cap.target_tokens, ci, uf, ci.len() as int).1;
                }
                paused_total = paused_total.saturating_add(paused);
                let now_used = usage.get_or_zero(w);
                if now_used > cap.target_tokens {
                    let ghost cr = candidates(ps0, w, false);
                    let marks = self.mark_running_on(cap.target_tokens, &plan.running, Ghost(cr), now_used.saturating_sub(plan.marked));
                    marked_total = marked_total.saturating_add(marks);
                }
            }
            i = i + 1;
        }
        (paused_total, marked_total)
    }

    /// Pauses programs on workers above their pause threshold: idle programs
    /// are paused at once, running ones are marked to pause after their
    /// turn, smallest first, until the worker would be at its target. `usage`
    /// holds the workers' usage and is updated for the paused programs.
    /// Returns how many programs were paused and how many newly marked.
    pub fn pause_until_safe(&mut self, caps: &[PressureCapacity], usage: &mut WorkerTable) -> (counts: (usize, usize))
        requires
            old(self).wf(),
            old(usage).wf(),
        ensures
            final(self).wf(),
            final(usage).wf(),
            ({
                let r = relieve_all(
                    old(self)@,
                    old(self)@.programs,
                    caps@,
                    |w: WorkerWithDpRank| get0(old(usage)@, w),
                    caps@.len() as int,
                );
                &&& final(self)@ == r.0
                &&& forall|x: WorkerWithDpRank| #[trigger] get0(final(usage)@, x) == r.1(x)
                &&& counts == (r.2, r.3)
            }),
    {
        let ghost ps0 = self@.programs;
        let ghost u = |w: WorkerWithDpRank| get0(usage@, w);
        let plans = self.pressure_plans(caps);
        self.relieve_workers(caps, &plans, usage, Ghost(u), Ghost(ps0))
    }

    /// One reconcile pass at `now` (the router's periodic tick). `caps` are
    /// the workers' capacities with their pause limits; `list` gives the
    /// eligibility of the deferred requests (see
    /// [`Self::deferred_requests`]). Before the next tick it does nothing.
    pub fn reconcile(
        &mut self,
        now: u64,
        caps: &[PressureCapacity],
        list: &[(AdmissionId, WorkerEligibilitySnapshot)],
    ) -> (acts: Vec<AdmissionAction>)
        requires
            old(self).wf(),
        ensures
            final(self).wf(),
            (final(self)@, acts@) == reconcile(old(self)@, now, caps@, list@),
    {
        if now < self.next_tick {
            return Vec::new();
        }
        self.next_tick = now.saturating_add(self.timing.scheduler_interval_nanos);
        self.expire_retained(now);
        let ghost v1 = self@;
        let dl = self.deferred_positions(list);
        let ghost d = deferred_list(self@, list@);
        self.clear_stale_assignments(list, &dl, Ghost(d));
        let mut acts = self.resume_unmetered_programs(caps, list, &dl, Ghost(d));
        let ghost v3 = self@;
        let (mut usage, mut running) = worker_usages_of(&self.programs);
        let ghost u = |w: WorkerWithDpRank| usage_of(v3.programs, w, false);
        let ghost rf = |w: WorkerWithDpRank| usage_of(v3.programs, w, true);
        let ghost mut u4 = u;
        if caps.len() > 0 {
            let mut a2 = self.greedy_resume(caps, list, &dl, Ghost(d), &mut usage, &mut running, Ghost(u), Ghost(rf));
            acts.append(&mut a2);
            proof {
                u4 = greedy(v3, caps@, d, u, rf).2;
            }
        }
        let mut a3 = self.force_timed_out(list, &dl, Ghost(d), now);
        acts.append(&mut a3);
        if caps.len() > 0 {
            let ghost ps0 = self@.programs;
            let plans = self.pressure_plans(caps);
            let _ = self.relieve_workers(caps, &plans, &mut usage, Ghost(u4), Ghost(ps0));
        }
        acts
    }

    /// The requests deferred behind a paused program, whose eligibility a
    /// reconcile pass needs, in program order.
    pub fn deferred_requests(&self) -> (r: Vec<AdmissionId>)
        requires
            self.wf(),
        ensures
            forall|id: u64| #[trigger] is_deferred(self@, id) ==> r@.contains(admission_id(id)),
            forall|k: int| 0 <= k < r@.len() ==> is_deferred(self@, #[trigger] r@[k].value),
    {
        let n = program_map_len(&self.programs);
        let mut r: Vec<AdmissionId> = Vec::new();
        let mut i: usize = 0;
        while i < n
            invariant
                self.wf(),
                n == self@.programs.len(),
                i <= n,
                forall|k: int| 0 <= k < r@.len() ==> is_deferred(self@, #[trigger] r@[k].value),
                forall|j: int|
                    #![trigger self@.programs[j]]
                    0 <= j < i && is_suspended(self@.programs[j].1) && current_of(self@.sessions, self@.programs[j].0)
                        is Some && self@.requests.contains_key(current_of(self@.sessions, self@.programs[j].0)->0)
                        ==> r@.contains(admission_id(current_of(self@.sessions, self@.programs[j].0)->0)),
            decreases n - i,
        {
            let (k, p) = program_map_get_index(&self.programs, i).unwrap();
            let ghost r0 = r@;
            if p.is_suspended() {
                match self.sessions.current(&k) {
                    Some(id) => {
                        if self.requests.contains_key(&id) {
                            assert(current_of(self@.sessions, self@.programs[i as int].0) == Some(id));
                            assert(self@.requests.contains_key(id));
                            r.push(AdmissionId { value: id });
                            assert(r@[r0.len() as int] == admission_id(id));
                        } else {
                            assert(!self@.requests.contains_key(id));
                        }
                    },
                    None => {},
                }
            }
            assert forall|j: int|
                #![trigger self@.programs[j]]
                0 <= j < i + 1 && is_suspended(self@.programs[j].1) && current_of(self@.sessions, self@.programs[j].0)
                    is Some && self@.requests.contains_key(current_of(self@.sessions, self@.programs[j].0)->0)
                    implies r@.contains(admission_id(current_of(self@.sessions, self@.programs[j].0)->0)) by {
                let id2 = current_of(self@.sessions, self@.programs[j].0)->0;
                if j < i {
                    assert(r0.contains(admission_id(id2)));
                    let t = choose|t: int| 0 <= t < r0.len() && r0[t] == admission_id(id2);
                    assert(r@[t] == admission_id(id2));
                } else {
                    assert(r@[r0.len() as int] == admission_id(id2));
                }
            }
            i = i + 1;
        }
        assert forall|id: u64| #[trigger] is_deferred(self@, id) implies r@.contains(admission_id(id)) by {
            let j = choose|j: int|
                0 <= j < self@.programs.len() && is_suspended(self@.programs[j].1) && #[trigger] current_of(
                    self@.sessions,
                    self@.programs[j].0,
                ) == Some(id);
            assert(self@.programs[j] == self@.programs[j]);
        }
        r
    }

    /// Forgets the programs retained longer than the retention period at
    /// `now`; returns how many were forgotten.
    pub fn expire_retained_programs(&mut self, now: u64) -> (n: usize)
        requires
            old(self).wf(),
        ensures
            final(self).wf(),
            final(self)@ == expire(old(self)@, now),
            n == old(self)@.programs.len() - final(self)@.programs.len(),
    {
        let before = program_map_len(&self.programs);
        self.expire_retained(now);
        proof {
            lemma_kept_len(
                old(self)@.programs,
                old(self)@.sessions,
                now,
                old(self)@.timing.session_retention_nanos,
                old(self)@.programs.len() as int,
            );
        }
        before - program_map_len(&self.programs)
    }

    /// The tokens the programs occupy on each worker: all placed programs
    /// that are not paused, and those running a turn.
    pub fn worker_usages(&self) -> (r: (WorkerTable, WorkerTable))
        ensures
            r.0.wf(),
            r.1.wf(),
            forall|w: WorkerWithDpRank| #[trigger] get0(r.0@, w) == usage_of(self@.programs, w, false),
            forall|w: WorkerWithDpRank| #[trigger] get0(r.1@, w) == usage_of(self@.programs, w, true),
    {
        worker_usages_of(&self.programs)
    }

    /// Makes `id` the current request of session `s` (a seeded session).
    pub fn set_session_current(&mut self, s: &String, id: AdmissionId)
        requires
            old(self).wf(),
        ensures
            final(self).wf(),
            final(self)@ == (PolicyView { sessions: with_current(old(self)@.sessions, s@, Some(id.value)), ..old(self)@ }),
    {
        self.set_current(s, Some(id.value));
    }

    /// Request `id` reports that its context has grown to `context_tokens`.
    pub fn report_progress(&mut self, id: AdmissionId, context_tokens: usize)
        requires
            old(self).wf(),
        ensures
            final(self).wf(),
            final(self)@ == progressed(old(self)@, id.value, context_tokens),
    {
        let (sid, sfinal, prior) = match self.requests.get(&id.value) {
            None => {
                return;
            },
            Some(r) => (r.session_id.clone(), r.session_final, r.prior),
        };
        self.set_request(
            id.value,
            RequestState { session_id: sid.clone(), session_final: sfinal, context_tokens, prior },
        );
        let is_current = match self.sessions.current(&sid) {
            Some(c) => c == id.value,
            None => false,
        };
        if is_current {
            match self.program(sid.as_str()) {
                Some(p) => match p.state {
                    ProgramState::Running { pause_after_completion, .. } => {
                        self.put_program(
                            sid.clone(),
                            Program { state: ProgramState::Running { context_tokens, pause_after_completion }, ..p },
                        );
                    },
                    _ => {},
                },
                None => {},
            }
        }
    }

    /// How often the router should send reconcile events, in nanoseconds.
    pub fn reconcile_interval_nanos(&self) -> (r: u64)
        ensures
            r == self@.timing.scheduler_interval_nanos,
    {
        self.timing.scheduler_interval_nanos
    }

    /// Handles a lifecycle event at `now` (the router's event call). `caps`
    /// are the workers' capacities; `elig` is the eligibility of the request
    /// a finished request's session starts next (see
    /// [`Self::promotion_candidate`]); `list` gives the eligibility of the
    /// deferred requests for a reconcile pass.
    pub fn on_event(
        &mut self,
        event: AdmissionEvent,
        now: u64,
        caps: &[PressureCapacity],
        elig: &WorkerEligibilitySnapshot,
        list: &[(AdmissionId, WorkerEligibilitySnapshot)],
    ) -> (acts: Vec<AdmissionAction>)
        requires
            old(self).wf(),
        ensures
            final(self).wf(),
            (final(self)@, acts@) == event_outcome(old(self)@, event, now, caps@, *elig, list@),
    {
        match event {
            AdmissionEvent::Dispatched { id, worker } => {
                self.dispatched(id, worker);
                Vec::new()
            },
            AdmissionEvent::Completed { id, context_tokens } => {
                let wcaps = capacities_of(caps);
                self.finish_request(id.value, Some(context_tokens), now, wcaps.as_slice(), elig)
            },
            AdmissionEvent::Aborted { id } => {
                let wcaps = capacities_of(caps);
                self.finish_request(id.value, None, now, wcaps.as_slice(), elig)
            },
            AdmissionEvent::Reconcile => self.reconcile(now, caps, list),
        }
    }

    /// No reconcile pass runs before this time.
    pub fn next_tick(&self) -> (r: u64)
        ensures
            r == self@.next_tick,
    {
        self.next_tick
    }
}

} // verus!
