//! The periodic reconcile pass as a function of the policy state: forgetting
//! expired programs, resuming paused programs when capacity allows or when
//! they waited too long, and pausing programs on workers under pressure.
//!
//! Worker tables (usage, remaining device capacity) are spec functions from
//! workers to values; a worker without an entry counts as 0 or has none.

use vstd::prelude::*;
use super::types::{
    WorkerWithDpRank, WorkerPlacement, AdmissionAction, AdmissionId, PressureCapacity, AdmissionEvent,
    WorkerEligibilitySnapshot, snapshot_allows, snapshot_structurally_allows,
    snapshot_has_structural, snapshot_has_available,
};
use super::program::{
    Program, ProgramState, footprint_of, is_suspended, is_marked, retained_since, suspended_since,
};
use super::model::{PolicyView, Programs, prog_get, prog_set, admission_action, dispatched, finish};
use super::sessions::{SessionView, current_of};
use super::usage::{usage_of, saturate, sat_sub};
use super::keysort::{SortKey, key_sorted};

verus! {

/// Nanoseconds from `since` to `now`, 0 when `since` is later.
pub open spec fn elapsed(now: u64, since: u64) -> u64 {
    if since > now {
        0
    } else {
        (now - since) as u64
    }
}

pub open spec fn sat_add(a: usize, b: usize) -> usize {
    saturate((a + b) as nat)
}

pub open spec fn placement_of(w: Option<WorkerWithDpRank>) -> WorkerPlacement {
    match w {
        Some(x) => WorkerPlacement::Exact(x),
        None => WorkerPlacement::Any,
    }
}

pub open spec fn has_current(sessions: Map<Seq<char>, SessionView>, s: Seq<char>) -> bool {
    current_of(sessions, s) is Some
}

/// Resumes session `s`'s paused program on `worker`: with a deferred request
/// the program runs that request (which is released), otherwise it is idle
/// and resident again.
pub open spec fn resume(v: PolicyView, s: Seq<char>, worker: Option<WorkerWithDpRank>) -> (
    PolicyView,
    Seq<AdmissionAction>,
) {
    let cur = current_of(v.sessions, s);
    if cur is Some && !v.requests.contains_key(cur->0) {
        (v, Seq::empty())
    } else {
        match prog_get(v.programs, s) {
            Some(p) => match p.state {
                ProgramState::Suspended { footprint, since } => {
                    let state = match cur {
                        Some(id) => ProgramState::Running {
                            context_tokens: v.requests[id].context_tokens,
                            pause_after_completion: false,
                        },
                        None => ProgramState::IdleResident { footprint, last_activity: since },
                    };
                    (
                        PolicyView {
                            programs: prog_set(
                                v.programs,
                                s,
                                Program { state, assigned_worker: worker, step_count: p.step_count },
                            ),
                            ..v
                        },
                        match cur {
                            Some(id) => seq![admission_action(id, placement_of(worker))],
                            None => Seq::empty(),
                        },
                    )
                },
                _ => (v, Seq::empty()),
            },
            None => (v, Seq::empty()),
        }
    }
}

// ---------------------------------------------------------------------------
// Expiry

/// A program is kept while its session has requests, while it runs a turn,
/// or until it has been retained for the retention period.
pub open spec fn keeps(
    sessions: Map<Seq<char>, SessionView>,
    now: u64,
    retention: u64,
    e: (Seq<char>, Program),
) -> bool {
    sessions.contains_key(e.0) || match retained_since(e.1) {
        None => true,
        Some(since) => elapsed(now, since) < retention,
    }
}

/// The kept programs among the first `n`, in order.
pub open spec fn kept_upto(
    ps: Programs,
    sessions: Map<Seq<char>, SessionView>,
    now: u64,
    retention: u64,
    n: int,
) -> Programs
    decreases n,
{
    if n <= 0 {
        Seq::empty()
    } else {
        let r = kept_upto(ps, sessions, now, retention, n - 1);
        if keeps(sessions, now, retention, ps[n - 1]) {
            r.push(ps[n - 1])
        } else {
            r
        }
    }
}

pub open spec fn expire(v: PolicyView, now: u64) -> PolicyView {
    PolicyView {
        programs: kept_upto(
            v.programs,
            v.sessions,
            now,
            v.timing.session_retention_nanos,
            v.programs.len() as int,
        ),
        ..v
    }
}

// ---------------------------------------------------------------------------
// Eligibility of deferred requests

/// Request `id` is the current request of a session whose program is paused.
pub open spec fn is_deferred(v: PolicyView, id: u64) -> bool {
    &&& v.requests.contains_key(id)
    &&& exists|i: int|
        0 <= i < v.programs.len() && is_suspended(v.programs[i].1) && #[trigger] current_of(
            v.sessions,
            v.programs[i].0,
        ) == Some(id)
}

/// The entries among the first `n` of `list` that are for deferred requests.
pub open spec fn deferred_upto(
    v: PolicyView,
    list: Seq<(AdmissionId, WorkerEligibilitySnapshot)>,
    n: int,
) -> Seq<(AdmissionId, WorkerEligibilitySnapshot)>
    decreases n,
{
    if n <= 0 {
        Seq::empty()
    } else {
        let r = deferred_upto(v, list, n - 1);
        if is_deferred(v, list[n - 1].0.value) {
            r.push(list[n - 1])
        } else {
            r
        }
    }
}

pub open spec fn deferred_list(
    v: PolicyView,
    list: Seq<(AdmissionId, WorkerEligibilitySnapshot)>,
) -> Seq<(AdmissionId, WorkerEligibilitySnapshot)> {
    deferred_upto(v, list, list.len() as int)
}

/// The first eligibility listed for request `id`, from position `i` on.
pub open spec fn elig_from(
    list: Seq<(AdmissionId, WorkerEligibilitySnapshot)>,
    id: u64,
    i: int,
) -> Option<WorkerEligibilitySnapshot>
    decreases list.len() - i,
{
    if i < 0 || i >= list.len() {
        None
    } else if list[i].0.value == id {
        Some(list[i].1)
    } else {
        elig_from(list, id, i + 1)
    }
}

pub open spec fn elig_of(list: Seq<(AdmissionId, WorkerEligibilitySnapshot)>, id: u64) -> Option<
    WorkerEligibilitySnapshot,
> {
    elig_from(list, id, 0)
}

/// The eligibility of session `s`'s current request, if it is listed.
pub open spec fn session_elig(
    sessions: Map<Seq<char>, SessionView>,
    dl: Seq<(AdmissionId, WorkerEligibilitySnapshot)>,
    s: Seq<char>,
) -> Option<WorkerEligibilitySnapshot> {
    match current_of(sessions, s) {
        Some(id) => elig_of(dl, id),
        None => None,
    }
}

// ---------------------------------------------------------------------------
// Stale assignments

/// A program loses its worker when its deferred request may never use it.
pub open spec fn cleared(
    sessions: Map<Seq<char>, SessionView>,
    dl: Seq<(AdmissionId, WorkerEligibilitySnapshot)>,
    e: (Seq<char>, Program),
) -> Program {
    match e.1.assigned_worker {
        Some(w) => match session_elig(sessions, dl, e.0) {
            Some(snap) => if !snapshot_structurally_allows(snap, w) {
                Program { assigned_worker: None, ..e.1 }
            } else {
                e.1
            },
            None => e.1,
        },
        None => e.1,
    }
}

pub open spec fn clear_stale(
    ps: Programs,
    sessions: Map<Seq<char>, SessionView>,
    dl: Seq<(AdmissionId, WorkerEligibilitySnapshot)>,
) -> Programs {
    Seq::new(ps.len(), |i: int| (ps[i].0, cleared(sessions, dl, ps[i])))
}

// ---------------------------------------------------------------------------
// Paused programs

/// The sessions of the paused programs among the first `n`, in order.
pub open spec fn suspended_keys_upto(ps: Programs, n: int) -> Seq<Seq<char>>
    decreases n,
{
    if n <= 0 {
        Seq::empty()
    } else {
        let r = suspended_keys_upto(ps, n - 1);
        if is_suspended(ps[n - 1].1) {
            r.push(ps[n - 1].0)
        } else {
            r
        }
    }
}

pub open spec fn suspended_keys(ps: Programs) -> Seq<Seq<char>> {
    suspended_keys_upto(ps, ps.len() as int)
}

pub open spec fn caps_have_worker(caps: Seq<PressureCapacity>, w: WorkerWithDpRank) -> bool {
    exists|i: int| 0 <= i < caps.len() && caps[i].capacity.worker == w
}

pub open spec fn caps_any_allowed(caps: Seq<PressureCapacity>, snap: WorkerEligibilitySnapshot) -> bool {
    exists|i: int| 0 <= i < caps.len() && snapshot_allows(snap, caps[i].capacity.worker)
}

/// Whether paused session `s` resumes without capacity metering, and on which
/// worker: when no reported capacity covers the workers it may use.
pub open spec fn unmetered_choice(
    v: PolicyView,
    caps: Seq<PressureCapacity>,
    dl: Seq<(AdmissionId, WorkerEligibilitySnapshot)>,
    s: Seq<char>,
) -> Option<Option<WorkerWithDpRank>> {
    match prog_get(v.programs, s) {
        None => None,
        Some(p) => {
            let assigned = p.assigned_worker;
            match session_elig(v.sessions, dl, s) {
                Some(snap) => if !snapshot_has_available(snap) {
                    None
                } else if assigned is Some && snapshot_structurally_allows(snap, assigned->0) {
                    if !snapshot_allows(snap, assigned->0) || caps_have_worker(caps, assigned->0) {
                        None
                    } else {
                        Some(assigned)
                    }
                } else if caps_any_allowed(caps, snap) {
                    None
                } else {
                    Some(None)
                },
                None => if (assigned is Some && caps_have_worker(caps, assigned->0)) || (assigned is None
                    && caps.len() > 0) {
                    None
                } else {
                    Some(assigned)
                },
            }
        },
    }
}

/// Unmetered resumes of the first `n` of `keys`, in order.
pub open spec fn resume_unmetered(
    v: PolicyView,
    caps: Seq<PressureCapacity>,
    dl: Seq<(AdmissionId, WorkerEligibilitySnapshot)>,
    keys: Seq<Seq<char>>,
    n: int,
) -> (PolicyView, Seq<AdmissionAction>)
    decreases n,
{
    if n <= 0 {
        (v, Seq::empty())
    } else {
        let (v1, a1) = resume_unmetered(v, caps, dl, keys, n - 1);
        match unmetered_choice(v1, caps, dl, keys[n - 1]) {
            Some(w) => {
                let (v2, a2) = resume(v1, keys[n - 1], w);
                (v2, a1 + a2)
            },
            None => (v1, a1),
        }
    }
}

// ---------------------------------------------------------------------------
// Greedy resume

pub open spec fn required_of(ps: Programs, s: Seq<char>) -> usize {
    match prog_get(ps, s) {
        Some(p) => footprint_of(p),
        None => 0,
    }
}

/// Resume priority: first sessions waiting on a later turn, then new
/// sessions, then idle ones.
pub open spec fn group_of(ps: Programs, sessions: Map<Seq<char>, SessionView>, s: Seq<char>) -> usize {
    let steps = match prog_get(ps, s) {
        Some(p) => p.step_count,
        None => 0,
    };
    if steps <= 1 {
        1
    } else if has_current(sessions, s) {
        0
    } else {
        2
    }
}

/// Session `s` may be placed on worker `w`.
pub open spec fn allows_worker(
    v: PolicyView,
    dl: Seq<(AdmissionId, WorkerEligibilitySnapshot)>,
    s: Seq<char>,
    w: WorkerWithDpRank,
) -> bool {
    match prog_get(v.programs, s) {
        None => false,
        Some(p) => if p.assigned_worker is Some && p.assigned_worker->0 != w {
            false
        } else if !is_suspended(p) || !has_current(v.sessions, s) {
            true
        } else {
            match session_elig(v.sessions, dl, s) {
                None => true,
                Some(snap) => snapshot_allows(snap, w),
            }
        },
    }
}

/// Slot `e` (a worker and its remaining tokens) can take session `s`.
pub open spec fn fits_slot(
    v: PolicyView,
    dl: Seq<(AdmissionId, WorkerEligibilitySnapshot)>,
    s: Seq<char>,
    required: usize,
    busy: bool,
    e: (WorkerWithDpRank, usize),
    dev: spec_fn(WorkerWithDpRank) -> Option<usize>,
) -> bool {
    &&& allows_worker(v, dl, s, e.0)
    &&& required <= e.1
    &&& (!busy || (dev(e.0) is Some && required <= dev(e.0)->0))
}

/// The first slot, from position `i` on, that can take session `s`.
pub open spec fn first_slot_from(
    v: PolicyView,
    dl: Seq<(AdmissionId, WorkerEligibilitySnapshot)>,
    s: Seq<char>,
    required: usize,
    busy: bool,
    l: Seq<(WorkerWithDpRank, usize)>,
    dev: spec_fn(WorkerWithDpRank) -> Option<usize>,
    i: int,
) -> Option<int>
    decreases l.len() - i,
{
    if i < 0 || i >= l.len() {
        None
    } else if fits_slot(v, dl, s, required, busy, l[i], dev) {
        Some(i)
    } else {
        first_slot_from(v, dl, s, required, busy, l, dev, i + 1)
    }
}

/// How many of the first `n` slots can take session `s`.
pub open spec fn count_slots(
    v: PolicyView,
    dl: Seq<(AdmissionId, WorkerEligibilitySnapshot)>,
    s: Seq<char>,
    required: usize,
    busy: bool,
    l: Seq<(WorkerWithDpRank, usize)>,
    dev: spec_fn(WorkerWithDpRank) -> Option<usize>,
    n: int,
) -> nat
    decreases n,
{
    if n <= 0 {
        0
    } else {
        count_slots(v, dl, s, required, busy, l, dev, n - 1) + if fits_slot(
            v,
            dl,
            s,
            required,
            busy,
            l[n - 1],
            dev,
        ) {
            1nat
        } else {
            0nat
        }
    }
}

/// Slots with more remaining tokens come first; ties by worker.
pub open spec fn slot_key(e: (WorkerWithDpRank, usize)) -> SortKey {
    ((u64::MAX - e.1) as u64, e.0.worker_id, e.0.dp_rank as u64)
}

pub open spec fn slot_sort(l: Seq<(WorkerWithDpRank, usize)>) -> Seq<(WorkerWithDpRank, usize)> {
    let r = key_sorted(Seq::new(l.len(), |i: int| (slot_key(l[i]), l[i])));
    Seq::new(r.len(), |i: int| r[i].1)
}

/// The workers with room under the resume ceiling among the first `n`
/// capacities, with that room.
pub open spec fn slots_upto(
    caps: Seq<PressureCapacity>,
    usage: spec_fn(WorkerWithDpRank) -> usize,
    n: int,
) -> Seq<(WorkerWithDpRank, usize)>
    decreases n,
{
    if n <= 0 {
        Seq::empty()
    } else {
        let r = slots_upto(caps, usage, n - 1);
        let c = caps[n - 1];
        let room = sat_sub(c.target_tokens, usage(c.capacity.worker));
        if room > 0 {
            r.push((c.capacity.worker, room))
        } else {
            r
        }
    }
}

/// Remaining device capacity of `w`, from the last of the first `n`
/// capacities for `w`.
pub open spec fn device_room(
    caps: Seq<PressureCapacity>,
    running: spec_fn(WorkerWithDpRank) -> usize,
    w: WorkerWithDpRank,
    n: int,
) -> Option<usize>
    decreases n,
{
    if n <= 0 {
        None
    } else if caps[n - 1].capacity.worker == w {
        Some(sat_sub(caps[n - 1].capacity.device_tokens, running(w)))
    } else {
        device_room(caps, running, w, n - 1)
    }
}

pub open spec fn device_table(
    caps: Seq<PressureCapacity>,
    running: spec_fn(WorkerWithDpRank) -> usize,
) -> spec_fn(WorkerWithDpRank) -> Option<usize> {
    |w: WorkerWithDpRank| device_room(caps, running, w, caps.len() as int)
}

pub open spec fn paused_key(
    v: PolicyView,
    dl: Seq<(AdmissionId, WorkerEligibilitySnapshot)>,
    s: Seq<char>,
    slots: Seq<(WorkerWithDpRank, usize)>,
    dev: spec_fn(WorkerWithDpRank) -> Option<usize>,
) -> SortKey {
    let required = required_of(v.programs, s);
    (
        group_of(v.programs, v.sessions, s) as u64,
        count_slots(v, dl, s, required, has_current(v.sessions, s), slots, dev, slots.len() as int) as u64,
        required as u64,
    )
}

/// The paused sessions in the order they are considered: by priority group,
/// then fewest fitting workers, then smallest footprint.
pub open spec fn paused_order(
    v: PolicyView,
    dl: Seq<(AdmissionId, WorkerEligibilitySnapshot)>,
    keys: Seq<Seq<char>>,
    slots: Seq<(WorkerWithDpRank, usize)>,
    dev: spec_fn(WorkerWithDpRank) -> Option<usize>,
) -> Seq<Seq<char>> {
    let r = key_sorted(Seq::new(keys.len(), |i: int| (paused_key(v, dl, keys[i], slots, dev), i as usize)));
    Seq::new(r.len(), |j: int| keys[r[j].1 as int])
}

/// Takes `required` tokens from slot `pos`: a used-up slot goes away, the
/// others are sorted again.
pub open spec fn reserve(l: Seq<(WorkerWithDpRank, usize)>, pos: int, required: usize) -> Seq<
    (WorkerWithDpRank, usize),
> {
    if l[pos].1 - required == 0 {
        l.remove(pos)
    } else {
        slot_sort(l.update(pos, (l[pos].0, (l[pos].1 - required) as usize)))
    }
}

/// Takes `required` device tokens from `w` for a session with a request.
pub open spec fn take_device(
    dev: spec_fn(WorkerWithDpRank) -> Option<usize>,
    w: WorkerWithDpRank,
    required: usize,
    busy: bool,
) -> spec_fn(WorkerWithDpRank) -> Option<usize> {
    if busy {
        |x: WorkerWithDpRank|
            if x == w {
                match dev(w) {
                    Some(a) => Some(sat_sub(a, required)),
                    None => None,
                }
            } else {
                dev(x)
            }
    } else {
        dev
    }
}

/// A paused session chosen to resume.
pub struct Pick {
    pub group: usize,
    pub session: Seq<char>,
    pub required: usize,
    pub busy: bool,
    /// The worker it was provisionally given.
    pub worker: WorkerWithDpRank,
}

/// The picks among the first `n` sessions of `order`, reserving slot room as
/// each is accepted.
pub open spec fn select(
    v: PolicyView,
    dl: Seq<(AdmissionId, WorkerEligibilitySnapshot)>,
    order: Seq<Seq<char>>,
    slots: Seq<(WorkerWithDpRank, usize)>,
    dev: spec_fn(WorkerWithDpRank) -> Option<usize>,
    n: int,
) -> (Seq<(WorkerWithDpRank, usize)>, spec_fn(WorkerWithDpRank) -> Option<usize>, Seq<Pick>)
    decreases n,
{
    if n <= 0 {
        (slots, dev, Seq::empty())
    } else {
        let (l, d, picks) = select(v, dl, order, slots, dev, n - 1);
        let s = order[n - 1];
        let required = required_of(v.programs, s);
        let busy = has_current(v.sessions, s);
        match first_slot_from(v, dl, s, required, busy, l, d, 0) {
            None => (l, d, picks),
            Some(pos) => (
                reserve(l, pos, required),
                take_device(d, l[pos].0, required, busy),
                picks.push(
                    Pick {
                        group: group_of(v.programs, v.sessions, s),
                        session: s,
                        required,
                        busy,
                        worker: l[pos].0,
                    },
                ),
            ),
        }
    }
}

/// Picks are repacked by priority group, largest footprint first.
pub open spec fn pick_key(p: Pick) -> SortKey {
    (p.group as u64, (u64::MAX - p.required) as u64, 0)
}

pub open spec fn pick_sort(picks: Seq<Pick>) -> Seq<Pick> {
    let r = key_sorted(Seq::new(picks.len(), |i: int| (pick_key(picks[i]), i as usize)));
    Seq::new(r.len(), |j: int| picks[r[j].1 as int])
}

/// Places the first `n` picks again from the start; `None` when one of
/// them no longer fits.
pub open spec fn repack(
    v: PolicyView,
    dl: Seq<(AdmissionId, WorkerEligibilitySnapshot)>,
    picks: Seq<Pick>,
    slots: Seq<(WorkerWithDpRank, usize)>,
    dev: spec_fn(WorkerWithDpRank) -> Option<usize>,
    n: int,
) -> Option<(Seq<(WorkerWithDpRank, usize)>, spec_fn(WorkerWithDpRank) -> Option<usize>, Seq<WorkerWithDpRank>)>
    decreases n,
{
    if n <= 0 {
        Some((slots, dev, Seq::empty()))
    } else {
        match repack(v, dl, picks, slots, dev, n - 1) {
            None => None,
            Some((l, d, ws)) => {
                let p = picks[n - 1];
                match first_slot_from(v, dl, p.session, p.required, p.busy, l, d, 0) {
                    None => None,
                    Some(pos) => Some(
                        (
                            reserve(l, pos, p.required),
                            take_device(d, l[pos].0, p.required, p.busy),
                            ws.push(l[pos].0),
                        ),
                    ),
                }
            },
        }
    }
}

/// The worker each pick resumes on: the repacked placement when every pick
/// fits again, otherwise the provisional one.
pub open spec fn final_workers(
    v: PolicyView,
    dl: Seq<(AdmissionId, WorkerEligibilitySnapshot)>,
    picks: Seq<Pick>,
    slots: Seq<(WorkerWithDpRank, usize)>,
    dev: spec_fn(WorkerWithDpRank) -> Option<usize>,
) -> Seq<WorkerWithDpRank> {
    match repack(v, dl, picks, slots, dev, picks.len() as int) {
        Some((_, _, ws)) => ws,
        None => Seq::new(picks.len(), |i: int| picks[i].worker),
    }
}

pub open spec fn table_add(
    t: spec_fn(WorkerWithDpRank) -> usize,
    w: WorkerWithDpRank,
    x: usize,
) -> spec_fn(WorkerWithDpRank) -> usize {
    |y: WorkerWithDpRank|
        if y == w {
            sat_add(t(w), x)
        } else {
            t(y)
        }
}

pub open spec fn table_sub(
    t: spec_fn(WorkerWithDpRank) -> usize,
    w: WorkerWithDpRank,
    x: usize,
) -> spec_fn(WorkerWithDpRank) -> usize {
    |y: WorkerWithDpRank|
        if y == w {
            sat_sub(t(w), x)
        } else {
            t(y)
        }
}

/// Resumes the first `n` picks on their workers, counting their tokens in
/// the usage tables.
pub open spec fn apply_picks(
    v: PolicyView,
    picks: Seq<Pick>,
    ws: Seq<WorkerWithDpRank>,
    usage: spec_fn(WorkerWithDpRank) -> usize,
    running: spec_fn(WorkerWithDpRank) -> usize,
    n: int,
) -> (PolicyView, Seq<AdmissionAction>, spec_fn(WorkerWithDpRank) -> usize, spec_fn(WorkerWithDpRank) -> usize)
    decreases n,
{
    if n <= 0 {
        (v, Seq::empty(), usage, running)
    } else {
        let (v1, a1, u1, r1) = apply_picks(v, picks, ws, usage, running, n - 1);
        let p = picks[n - 1];
        let w = ws[n - 1];
        let (v2, a2) = resume(v1, p.session, Some(w));
        (
            v2,
            a1 + a2,
            table_add(u1, w, p.required),
            if p.busy {
                table_add(r1, w, p.required)
            } else {
                r1
            },
        )
    }
}

/// Resumes paused programs that fit under the workers' resume ceilings.
pub open spec fn greedy(
    v: PolicyView,
    caps: Seq<PressureCapacity>,
    dl: Seq<(AdmissionId, WorkerEligibilitySnapshot)>,
    usage: spec_fn(WorkerWithDpRank) -> usize,
    running: spec_fn(WorkerWithDpRank) -> usize,
) -> (PolicyView, Seq<AdmissionAction>, spec_fn(WorkerWithDpRank) -> usize, spec_fn(WorkerWithDpRank) -> usize) {
    let keys = suspended_keys(v.programs);
    let slots = slot_sort(slots_upto(caps, usage, caps.len() as int));
    if keys.len() == 0 || slots.len() == 0 {
        (v, Seq::empty(), usage, running)
    } else {
        let dev = device_table(caps, running);
        let order = paused_order(v, dl, keys, slots, dev);
        let picks = pick_sort(select(v, dl, order, slots, dev, order.len() as int).2);
        let ws = final_workers(v, dl, picks, slots, dev);
        apply_picks(v, picks, ws, usage, running, picks.len() as int)
    }
}

// ---------------------------------------------------------------------------
// Forced resumes

/// A paused program whose session has a request that has waited at least
/// `timeout`.
pub open spec fn timed_out(
    sessions: Map<Seq<char>, SessionView>,
    now: u64,
    timeout: u64,
    e: (Seq<char>, Program),
) -> bool {
    has_current(sessions, e.0) && match suspended_since(e.1) {
        Some(since) => elapsed(now, since) >= timeout,
        None => false,
    }
}

pub open spec fn timed_out_upto(
    ps: Programs,
    sessions: Map<Seq<char>, SessionView>,
    now: u64,
    timeout: u64,
    n: int,
) -> Seq<Seq<char>>
    decreases n,
{
    if n <= 0 {
        Seq::empty()
    } else {
        let r = timed_out_upto(ps, sessions, now, timeout, n - 1);
        if timed_out(sessions, now, timeout, ps[n - 1]) {
            r.push(ps[n - 1].0)
        } else {
            r
        }
    }
}

/// Session `s` is paused and its request may use some worker, none of which
/// is available now.
pub open spec fn waits_for_available(
    v: PolicyView,
    dl: Seq<(AdmissionId, WorkerEligibilitySnapshot)>,
    s: Seq<char>,
) -> bool {
    match prog_get(v.programs, s) {
        None => false,
        Some(p) => is_suspended(p) && match session_elig(v.sessions, dl, s) {
            Some(snap) => snapshot_has_structural(snap) && !snapshot_has_available(snap),
            None => false,
        },
    }
}

/// Forced resumes of the first `n` of `keys`, on any worker.
pub open spec fn force_resume(
    v: PolicyView,
    dl: Seq<(AdmissionId, WorkerEligibilitySnapshot)>,
    keys: Seq<Seq<char>>,
    n: int,
) -> (PolicyView, Seq<AdmissionAction>)
    decreases n,
{
    if n <= 0 {
        (v, Seq::empty())
    } else {
        let (v1, a1) = force_resume(v, dl, keys, n - 1);
        if waits_for_available(v1, dl, keys[n - 1]) {
            (v1, a1)
        } else {
            let (v2, a2) = resume(v1, keys[n - 1], None);
            (v2, a1 + a2)
        }
    }
}

// ---------------------------------------------------------------------------
// Pausing under pressure

/// Programs on worker `w` that may be paused (`idle`) or marked to pause
/// after their turn (`!idle`), among the first `n`, with their footprints.
pub open spec fn candidates_upto(ps: Programs, w: WorkerWithDpRank, idle: bool, n: int) -> Seq<
    (usize, Seq<char>),
>
    decreases n,
{
    if n <= 0 {
        Seq::empty()
    } else {
        let r = candidates_upto(ps, w, idle, n - 1);
        let p = ps[n - 1].1;
        if !is_suspended(p) && p.assigned_worker == Some(w) && !is_marked(p) && (if idle {
            p.state is IdleResident
        } else {
            p.state is Running
        }) {
            r.push((footprint_of(p), ps[n - 1].0))
        } else {
            r
        }
    }
}

/// The candidates, smallest footprint first.
pub open spec fn candidates(ps: Programs, w: WorkerWithDpRank, idle: bool) -> Seq<(usize, Seq<char>)> {
    let c = candidates_upto(ps, w, idle, ps.len() as int);
    let r = key_sorted(Seq::new(c.len(), |i: int| ((c[i].0 as u64, 0u64, 0u64), i as usize)));
    Seq::new(r.len(), |j: int| c[r[j].1 as int])
}

/// Tokens on `w` of programs already marked to pause, among the first `n`.
pub open spec fn marked_tokens(ps: Programs, w: WorkerWithDpRank, n: int) -> usize
    decreases n,
{
    if n <= 0 {
        0
    } else {
        let p = ps[n - 1].1;
        let r = marked_tokens(ps, w, n - 1);
        if !is_suspended(p) && p.assigned_worker == Some(w) && is_marked(p) {
            sat_add(r, footprint_of(p))
        } else {
            r
        }
    }
}

/// Pauses idle candidates of worker `w`, among the first `n`, while its
/// usage is above `target`; also counts the candidates it paused.
pub open spec fn pause_idle(
    v: PolicyView,
    w: WorkerWithDpRank,
    target: usize,
    cands: Seq<(usize, Seq<char>)>,
    usage: spec_fn(WorkerWithDpRank) -> usize,
    n: int,
) -> (PolicyView, spec_fn(WorkerWithDpRank) -> usize, usize)
    decreases n,
{
    if n <= 0 {
        (v, usage, 0)
    } else {
        let (v1, u1, c1) = pause_idle(v, w, target, cands, usage, n - 1);
        let s = cands[n - 1].1;
        if u1(w) <= target {
            (v1, u1, c1)
        } else {
            match prog_get(v1.programs, s) {
                None => (v1, u1, c1),
                Some(p) => (
                    PolicyView { programs: super::model::suspend_idle_program(v1.programs, s), ..v1 },
                    table_sub(u1, w, footprint_of(p)),
                    sat_add(c1, 1),
                ),
            }
        }
    }
}

/// The program with its pause-after-turn mark set, if it runs a turn.
pub open spec fn marked(p: Program) -> Program {
    match p.state {
        ProgramState::Running { context_tokens, .. } => Program {
            state: ProgramState::Running { context_tokens, pause_after_completion: true },
            ..p
        },
        _ => p,
    }
}

/// Marks running candidates, among the first `n`, while the projected usage
/// `projected` stays above `target`; also counts the newly marked ones.
pub open spec fn mark_running(
    v: PolicyView,
    target: usize,
    cands: Seq<(usize, Seq<char>)>,
    projected: usize,
    n: int,
) -> (PolicyView, usize, usize)
    decreases n,
{
    if n <= 0 {
        (v, projected, 0)
    } else {
        let (v1, pr, c1) = mark_running(v, target, cands, projected, n - 1);
        let s = cands[n - 1].1;
        if pr <= target {
            (v1, pr, c1)
        } else {
            match prog_get(v1.programs, s) {
                Some(p) => if p.state is Running {
                    (
                        PolicyView { programs: prog_set(v1.programs, s, marked(p)), ..v1 },
                        if !is_marked(p) {
                            sat_sub(pr, cands[n - 1].0)
                        } else {
                            pr
                        },
                        if !is_marked(p) {
                            sat_add(c1, 1)
                        } else {
                            c1
                        },
                    )
                } else {
                    (v1, pr, c1)
                },
                None => (v1, pr, c1),
            }
        }
    }
}

/// Relieves one worker above its pause threshold: pauses idle programs, then
/// marks running ones, smallest first, until it would be at its target.
/// `ps0` are the programs when pausing began. Also counts the paused and the
/// newly marked programs.
pub open spec fn relieve(
    v: PolicyView,
    ps0: Programs,
    cap: PressureCapacity,
    usage: spec_fn(WorkerWithDpRank) -> usize,
) -> (PolicyView, spec_fn(WorkerWithDpRank) -> usize, usize, usize) {
    let w = cap.capacity.worker;
    if usage(w) <= cap.threshold_tokens {
        (v, usage, 0, 0)
    } else {
        let idle = candidates(ps0, w, true);
        let (v1, u1, paused) = pause_idle(v, w, cap.target_tokens, idle, usage, idle.len() as int);
        if u1(w) > cap.target_tokens {
            let running = candidates(ps0, w, false);
            let projected = sat_sub(u1(w), marked_tokens(ps0, w, ps0.len() as int));
            let (v2, _, marks) = mark_running(v1, cap.target_tokens, running, projected, running.len() as int);
            (v2, u1, paused, marks)
        } else {
            (v1, u1, paused, 0)
        }
    }
}

/// Relieves the workers of the first `n` capacities, in order, with the
/// totals of paused and newly marked programs.
pub open spec fn relieve_all(
    v: PolicyView,
    ps0: Programs,
    caps: Seq<PressureCapacity>,
    usage: spec_fn(WorkerWithDpRank) -> usize,
    n: int,
) -> (PolicyView, spec_fn(WorkerWithDpRank) -> usize, usize, usize)
    decreases n,
{
    if n <= 0 {
        (v, usage, 0, 0)
    } else {
        let (v1, u1, p1, m1) = relieve_all(v, ps0, caps, usage, n - 1);
        let (v2, u2, p2, m2) = relieve(v1, ps0, caps[n - 1], u1);
        (v2, u2, sat_add(p1, p2), sat_add(m1, m2))
    }
}

// ---------------------------------------------------------------------------
// The whole pass

/// One reconcile pass at `now`, given the workers' capacities and the
/// eligibility of deferred requests (`list`). Before the next tick it does
/// nothing.
pub open spec fn reconcile(
    v: PolicyView,
    now: u64,
    caps: Seq<PressureCapacity>,
    list: Seq<(AdmissionId, WorkerEligibilitySnapshot)>,
) -> (PolicyView, Seq<AdmissionAction>) {
    if now < v.next_tick {
        (v, Seq::empty())
    } else {
        let next = if now + v.timing.scheduler_interval_nanos > u64::MAX {
            u64::MAX
        } else {
            (now + v.timing.scheduler_interval_nanos) as u64
        };
        let v1 = expire(PolicyView { next_tick: next, ..v }, now);
        let dl = deferred_list(v1, list);
        let v2 = PolicyView { programs: clear_stale(v1.programs, v1.sessions, dl), ..v1 };
        let (v3, a1) = resume_unmetered(v2, caps, dl, suspended_keys(v2.programs), suspended_keys(
            v2.programs,
        ).len() as int);
        let usage = |w: WorkerWithDpRank| usage_of(v3.programs, w, false);
        let running = |w: WorkerWithDpRank| usage_of(v3.programs, w, true);
        let (v4, a2, u4, r4) = if caps.len() == 0 {
            (v3, Seq::empty(), usage, running)
        } else {
            greedy(v3, caps, dl, usage, running)
        };
        let forced = timed_out_upto(
            v4.programs,
            v4.sessions,
            now,
            v4.timing.resume_timeout_nanos,
            v4.programs.len() as int,
        );
        let (v5, a3) = force_resume(v4, dl, forced, forced.len() as int);
        let v6 = if caps.len() == 0 {
            v5
        } else {
            relieve_all(v5, v5.programs, caps, u4, caps.len() as int).0
        };
        (v6, a1 + a2 + a3)
    }
}

/// What the policy does on a lifecycle event at `now`. `caps` are the
/// workers' capacities, `elig` the eligibility of the request that a
/// finished request's session starts next, `list` the eligibility of the
/// deferred requests.
pub open spec fn event_outcome(
    v: PolicyView,
    e: AdmissionEvent,
    now: u64,
    caps: Seq<PressureCapacity>,
    elig: WorkerEligibilitySnapshot,
    list: Seq<(AdmissionId, WorkerEligibilitySnapshot)>,
) -> (PolicyView, Seq<AdmissionAction>) {
    let wcaps = Seq::new(caps.len(), |i: int| caps[i].capacity);
    match e {
        AdmissionEvent::Dispatched { id, worker } => (dispatched(v, id.value, worker), Seq::empty()),
        AdmissionEvent::Completed { id, context_tokens } => finish(v, id.value, Some(context_tokens), now, wcaps, elig),
        AdmissionEvent::Aborted { id } => finish(v, id.value, None, now, wcaps, elig),
        AdmissionEvent::Reconcile => reconcile(v, now, caps, list),
    }
}

} // verus!
