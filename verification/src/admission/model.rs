//! The policy as a state machine over plain values. Each operation of
//! [`super::policy::SessionAwareAdmissionControl`] is specified by one of the
//! functions here: the state after the call and what the call returns.

use vstd::prelude::*;
use super::types::{
    WorkerWithDpRank, WorkerPlacement, AdmissionDecision, AdmissionAction, WorkerCapacity,
    WorkerEligibilitySnapshot, PolicyTiming, snapshot_allows, snapshot_structurally_allows,
    snapshot_has_structural, snapshot_has_available, worker_lt,
};
use super::program::{
    Program, ProgramState, footprint_of, is_suspended, running_program,
};
use super::ordered::{has_key, key_index};
use super::sessions::{SessionView, current_of, with_current, waiting_of};
use super::usage::usage_of;
use super::sessions::id_index;
use super::program::is_marked;

verus! {

/// A request as the policy remembers it.
pub struct RequestView {
    pub session: Seq<char>,
    pub session_final: bool,
    pub context_tokens: usize,
    /// The session's program before this request began, restored on abort.
    pub prior: Option<Program>,
}

/// The whole policy state.
pub struct PolicyView {
    pub timing: PolicyTiming,
    /// Programs by session, in the order they were first created.
    pub programs: Seq<(Seq<char>, Program)>,
    pub requests: Map<u64, RequestView>,
    pub sessions: Map<Seq<char>, SessionView>,
    /// No reconcile pass runs before this time.
    pub next_tick: u64,
}

pub type Programs = Seq<(Seq<char>, Program)>;

/// The program of session `s`.
pub open spec fn prog_get(ps: Programs, s: Seq<char>) -> Option<Program> {
    if has_key(ps, s) {
        Some(ps[key_index(ps, s)].1)
    } else {
        None
    }
}

/// `ps` with the program of session `s` set to `p` (appended when new).
pub open spec fn prog_set(ps: Programs, s: Seq<char>, p: Program) -> Programs {
    if has_key(ps, s) {
        ps.update(key_index(ps, s), (s, p))
    } else {
        ps.push((s, p))
    }
}

/// `ps` without the program of session `s`.
pub open spec fn prog_del(ps: Programs, s: Seq<char>) -> Programs {
    if has_key(ps, s) {
        ps.remove(key_index(ps, s))
    } else {
        ps
    }
}

/// Whether any program is paused.
pub open spec fn any_suspended(ps: Programs) -> bool {
    exists|i: int| 0 <= i < ps.len() && is_suspended(ps[i].1)
}

/// Pauses the program of session `s` at time `now`, keeping its footprint;
/// its sticky worker is kept only when `preserve` holds.
pub open spec fn defer_program(ps: Programs, s: Seq<char>, now: u64, preserve: bool) -> Programs {
    match prog_get(ps, s) {
        None => ps,
        Some(p) => prog_set(
            ps,
            s,
            Program {
                state: ProgramState::Suspended { footprint: footprint_of(p), since: now },
                assigned_worker: if preserve {
                    p.assigned_worker
                } else {
                    None
                },
                step_count: p.step_count,
            },
        ),
    }
}

/// Sets the sticky worker of session `s`'s program.
pub open spec fn assign_program(ps: Programs, s: Seq<char>, w: Option<WorkerWithDpRank>) -> Programs {
    match prog_get(ps, s) {
        None => ps,
        Some(p) => prog_set(ps, s, Program { assigned_worker: w, ..p }),
    }
}

/// Pauses an idle resident program; its last activity becomes its pause time.
pub open spec fn suspend_idle_program(ps: Programs, s: Seq<char>) -> Programs {
    match prog_get(ps, s) {
        Some(p) => match p.state {
            ProgramState::IdleResident { footprint, last_activity } => prog_set(
                ps,
                s,
                Program {
                    state: ProgramState::Suspended { footprint, since: last_activity },
                    assigned_worker: None,
                    step_count: p.step_count,
                },
            ),
            _ => ps,
        },
        None => ps,
    }
}

/// The device capacity of `cap` can take `tokens` more running tokens.
pub open spec fn fits_device(cap: WorkerCapacity, running_used: usize, tokens: usize) -> bool {
    running_used <= cap.device_tokens && cap.device_tokens - running_used >= tokens
}

/// Worker `cap` can take `tokens` more tokens, both retained and running.
pub open spec fn fits_capacity(cap: WorkerCapacity, used: usize, running_used: usize, tokens: usize) -> bool {
    used <= cap.tokens && cap.tokens - used >= tokens && fits_device(cap, running_used, tokens)
}

/// The first capacity entry for worker `w`, from position `i` on.
pub open spec fn cap_find_from(caps: Seq<WorkerCapacity>, w: WorkerWithDpRank, i: int) -> Option<WorkerCapacity>
    decreases caps.len() - i,
{
    if i < 0 || i >= caps.len() {
        None
    } else if caps[i].worker == w {
        Some(caps[i])
    } else {
        cap_find_from(caps, w, i + 1)
    }
}

pub open spec fn cap_find(caps: Seq<WorkerCapacity>, w: WorkerWithDpRank) -> Option<WorkerCapacity> {
    cap_find_from(caps, w, 0)
}

/// Capacity entry `i` is a placement candidate for a new program of `tokens`.
pub open spec fn placement_candidate(
    ps: Programs,
    caps: Seq<WorkerCapacity>,
    elig: WorkerEligibilitySnapshot,
    tokens: usize,
    i: int,
) -> bool {
    &&& 0 <= i < caps.len()
    &&& snapshot_allows(elig, caps[i].worker)
    &&& fits_capacity(
        caps[i],
        usage_of(ps, caps[i].worker, false),
        usage_of(ps, caps[i].worker, true),
        tokens,
    )
}

/// Placement order: less used first, then the lower worker.
pub open spec fn placement_before(ps: Programs, a: WorkerWithDpRank, b: WorkerWithDpRank) -> bool {
    usage_of(ps, a, false) < usage_of(ps, b, false) || (usage_of(ps, a, false) == usage_of(ps, b, false)
        && worker_lt(a, b))
}

pub open spec fn has_placement(ps: Programs, caps: Seq<WorkerCapacity>, elig: WorkerEligibilitySnapshot, tokens: usize) -> bool {
    exists|i: int| #[trigger] placement_candidate(ps, caps, elig, tokens, i)
}

/// `w` is the least used eligible worker with room for `tokens` (lowest on ties).
pub open spec fn is_best_placement(
    ps: Programs,
    caps: Seq<WorkerCapacity>,
    elig: WorkerEligibilitySnapshot,
    tokens: usize,
    w: WorkerWithDpRank,
) -> bool {
    &&& exists|i: int| #[trigger] placement_candidate(ps, caps, elig, tokens, i) && caps[i].worker == w
    &&& forall|j: int| #[trigger] placement_candidate(ps, caps, elig, tokens, j) ==> !placement_before(ps, caps[j].worker, w)
}

/// The least used eligible worker with room for `tokens` (lowest worker on ties).
pub open spec fn best_placement(ps: Programs, caps: Seq<WorkerCapacity>, elig: WorkerEligibilitySnapshot, tokens: usize) -> WorkerWithDpRank {
    choose|w: WorkerWithDpRank| #[trigger] is_best_placement(ps, caps, elig, tokens, w)
}

pub open spec fn any_capacity_allowed(caps: Seq<WorkerCapacity>, elig: WorkerEligibilitySnapshot) -> bool {
    exists|i: int| 0 <= i < caps.len() && snapshot_allows(elig, caps[i].worker)
}

pub open spec fn sat_inc(n: usize) -> usize {
    if n == usize::MAX {
        n
    } else {
        (n + 1) as usize
    }
}

/// A session-final request releases the session's program when it begins;
/// it is placed on the session's worker when the request may still use it.
pub open spec fn begin_final(
    v: PolicyView,
    id: u64,
    s: Seq<char>,
    elig: WorkerEligibilitySnapshot,
) -> (PolicyView, AdmissionDecision) {
    let assigned = match prog_get(v.programs, s) {
        Some(p) => p.assigned_worker,
        None => None,
    };
    let v2 = PolicyView {
        programs: prog_del(v.programs, s),
        requests: if v.requests.contains_key(id) {
            v.requests.insert(id, RequestView { prior: None, ..v.requests[id] })
        } else {
            v.requests
        },
        sessions: with_current(v.sessions, s, Some(id)),
        ..v
    };
    let decision = match assigned {
        Some(w) => if snapshot_structurally_allows(elig, w) {
            AdmissionDecision::Ready(WorkerPlacement::Exact(w))
        } else {
            AdmissionDecision::Ready(WorkerPlacement::Any)
        },
        None => AdmissionDecision::Ready(WorkerPlacement::Any),
    };
    (v2, decision)
}

/// The decision for a non-final turn of a session that was not paused, once
/// its program runs again with sticky worker `assigned`; `v` is the state
/// after the program was started, `usage_ps` the programs before.
pub open spec fn place_turn(
    v: PolicyView,
    usage_ps: Programs,
    s: Seq<char>,
    now: u64,
    caps: Seq<WorkerCapacity>,
    elig: WorkerEligibilitySnapshot,
    tokens: usize,
    assigned: Option<WorkerWithDpRank>,
    was_new: bool,
) -> (PolicyView, AdmissionDecision) {
    let sticky = assigned is Some && snapshot_structurally_allows(elig, assigned->0);
    if sticky {
        let w = assigned->0;
        if snapshot_allows(elig, w) && (match cap_find(caps, w) {
            None => true,
            Some(cap) => fits_device(cap, usage_of(usage_ps, w, true), tokens),
        }) {
            (v, AdmissionDecision::Ready(WorkerPlacement::Exact(w)))
        } else {
            (PolicyView { programs: defer_program(v.programs, s, now, true), ..v }, AdmissionDecision::Defer)
        }
    } else {
        let v2 = if assigned is Some {
            PolicyView { programs: assign_program(v.programs, s, None), ..v }
        } else {
            v
        };
        if snapshot_has_structural(elig) && !snapshot_has_available(elig) {
            (PolicyView { programs: defer_program(v2.programs, s, now, false), ..v2 }, AdmissionDecision::Defer)
        } else if was_new && any_suspended(v2.programs) {
            (PolicyView { programs: defer_program(v2.programs, s, now, false), ..v2 }, AdmissionDecision::Defer)
        } else if !any_capacity_allowed(caps, elig) {
            (v2, AdmissionDecision::Ready(WorkerPlacement::Any))
        } else if has_placement(usage_ps, caps, elig, tokens) {
            let w = best_placement(usage_ps, caps, elig, tokens);
            (
                PolicyView { programs: assign_program(v2.programs, s, Some(w)), ..v2 },
                AdmissionDecision::Ready(WorkerPlacement::Exact(w)),
            )
        } else {
            (PolicyView { programs: defer_program(v2.programs, s, now, false), ..v2 }, AdmissionDecision::Defer)
        }
    }
}

/// Request `id` becomes the one the session `s` serves.
pub open spec fn begin_request(
    v: PolicyView,
    id: u64,
    s: Seq<char>,
    now: u64,
    caps: Seq<WorkerCapacity>,
    elig: WorkerEligibilitySnapshot,
) -> (PolicyView, AdmissionDecision) {
    if !v.requests.contains_key(id) {
        (v, AdmissionDecision::Defer)
    } else if v.requests[id].session_final {
        begin_final(v, id, s, elig)
    } else {
        let req = v.requests[id];
        let prior = prog_get(v.programs, s);
        let was_new = prior is None;
        let was_suspended = prior is Some && is_suspended(prior->0);
        let assigned = match prior {
            Some(p) => p.assigned_worker,
            None => None,
        };
        let step = match prior {
            Some(p) => sat_inc(p.step_count),
            None => 1,
        };
        let v1 = PolicyView {
            programs: prog_set(v.programs, s, running_program(req.context_tokens, assigned, step)),
            requests: v.requests.insert(id, RequestView { prior, ..req }),
            sessions: with_current(v.sessions, s, Some(id)),
            ..v
        };
        if was_suspended {
            (PolicyView { programs: defer_program(v1.programs, s, now, true), ..v1 }, AdmissionDecision::Defer)
        } else {
            place_turn(v1, v.programs, s, now, caps, elig, req.context_tokens, assigned, was_new)
        }
    }
}

/// A request offered to the policy: without a session it bypasses the policy;
/// while its session serves another request it waits; otherwise it begins.
pub open spec fn offer(
    v: PolicyView,
    id: u64,
    session: Option<Seq<char>>,
    session_final: bool,
    context_tokens: usize,
    now: u64,
    caps: Seq<WorkerCapacity>,
    elig: WorkerEligibilitySnapshot,
) -> (PolicyView, AdmissionDecision) {
    match session {
        None => (v, AdmissionDecision::Bypass),
        Some(s) => {
            let v1 = PolicyView {
                requests: v.requests.insert(
                    id,
                    RequestView { session: s, session_final, context_tokens, prior: None },
                ),
                ..v
            };
            if current_of(v.sessions, s) is Some {
                let w = waiting_of(v.sessions, s);
                (
                    PolicyView {
                        sessions: v.sessions.insert(
                            s,
                            SessionView {
                                current: current_of(v.sessions, s),
                                waiting: if w.contains(id) {
                                    w
                                } else {
                                    w.push(id)
                                },
                            },
                        ),
                        ..v1
                    },
                    AdmissionDecision::Defer,
                )
            } else {
                begin_request(v1, id, s, now, caps, elig)
            }
        },
    }
}

/// The router sent request `id` to `worker`: a session's current request
/// makes that worker the session's sticky worker.
pub open spec fn dispatched(v: PolicyView, id: u64, worker: WorkerWithDpRank) -> PolicyView {
    if v.requests.contains_key(id) && current_of(v.sessions, v.requests[id].session) == Some(id) {
        PolicyView { programs: assign_program(v.programs, v.requests[id].session, Some(worker)), ..v }
    } else {
        v
    }
}

/// The next waiting request of session `s` begins; without one the session
/// is forgotten.
pub open spec fn promote_next(
    v: PolicyView,
    s: Seq<char>,
    now: u64,
    caps: Seq<WorkerCapacity>,
    elig: WorkerEligibilitySnapshot,
) -> (PolicyView, Seq<AdmissionAction>) {
    let w = waiting_of(v.sessions, s);
    if w.len() > 0 {
        let nid = w[0];
        let v1 = PolicyView {
            sessions: v.sessions.insert(
                s,
                SessionView { current: current_of(v.sessions, s), waiting: w.drop_first() },
            ),
            ..v
        };
        let (v2, d) = begin_request(v1, nid, s, now, caps, elig);
        (
            v2,
            match d {
                AdmissionDecision::Ready(p) => seq![admission_action(nid, p)],
                _ => Seq::empty(),
            },
        )
    } else {
        (PolicyView { sessions: v.sessions.remove(s), ..v }, Seq::empty())
    }
}

pub open spec fn admission_action(n: u64, p: WorkerPlacement) -> AdmissionAction {
    AdmissionAction { id: admission_id(n), placement: p }
}

pub open spec fn admission_id(n: u64) -> super::types::AdmissionId {
    super::types::AdmissionId { value: n }
}


/// Request `id` ends: a waiting request just leaves its queue; the current
/// request frees its session, which then serves its next waiting request.
/// A completed turn leaves its program idle and resident with the reported
/// context (paused at once when marked for pausing); an aborted turn restores
/// the program as it was before the turn; a session-final turn has already
/// released its program.
pub open spec fn finish(
    v: PolicyView,
    id: u64,
    completed: Option<usize>,
    now: u64,
    caps: Seq<WorkerCapacity>,
    elig: WorkerEligibilitySnapshot,
) -> (PolicyView, Seq<AdmissionAction>) {
    if !v.requests.contains_key(id) {
        (v, Seq::empty())
    } else {
        let req = v.requests[id];
        let s = req.session;
        let v1 = PolicyView { requests: v.requests.remove(id), ..v };
        if current_of(v.sessions, s) != Some(id) {
            let w = waiting_of(v.sessions, s);
            if v.sessions.contains_key(s) && w.contains(id) {
                (
                    PolicyView {
                        sessions: v.sessions.insert(
                            s,
                            SessionView { current: current_of(v.sessions, s), waiting: w.remove(id_index(w, id)) },
                        ),
                        ..v1
                    },
                    Seq::empty(),
                )
            } else {
                (v1, Seq::empty())
            }
        } else {
            let v2 = PolicyView {
                sessions: v.sessions.insert(s, SessionView { current: None, waiting: waiting_of(v.sessions, s) }),
                ..v1
            };
            let ps = if req.session_final {
                prog_del(v2.programs, s)
            } else {
                match completed {
                    None => match req.prior {
                        Some(p) => prog_set(v2.programs, s, p),
                        None => prog_del(v2.programs, s),
                    },
                    Some(ctx) => match prog_get(v2.programs, s) {
                        None => v2.programs,
                        Some(p) => {
                            let idle = prog_set(
                                v2.programs,
                                s,
                                Program {
                                    state: ProgramState::IdleResident { footprint: ctx, last_activity: now },
                                    ..p
                                },
                            );
                            if is_marked(p) {
                                suspend_idle_program(idle, s)
                            } else {
                                idle
                            }
                        },
                    },
                }
            };
            promote_next(PolicyView { programs: ps, ..v2 }, s, now, caps, elig)
        }
    }
}

/// The request that finishing `id` would start next, if any.
pub open spec fn promotion_candidate(v: PolicyView, id: u64) -> Option<u64> {
    if v.requests.contains_key(id) && current_of(v.sessions, v.requests[id].session) == Some(id)
        && waiting_of(v.sessions, v.requests[id].session).len() > 0 {
        Some(waiting_of(v.sessions, v.requests[id].session)[0])
    } else {
        None
    }
}

/// Request `id` reports that its context has grown to `tokens`: the request
/// and, while it is its session's running turn, the program take the new size.
pub open spec fn progressed(v: PolicyView, id: u64, tokens: usize) -> PolicyView {
    if !v.requests.contains_key(id) {
        v
    } else {
        let s = v.requests[id].session;
        let v1 = PolicyView {
            requests: v.requests.insert(id, RequestView { context_tokens: tokens, ..v.requests[id] }),
            ..v
        };
        if current_of(v.sessions, s) == Some(id) {
            match prog_get(v.programs, s) {
                Some(p) => match p.state {
                    ProgramState::Running { pause_after_completion, .. } => PolicyView {
                        programs: prog_set(
                            v.programs,
                            s,
                            Program {
                                state: ProgramState::Running { context_tokens: tokens, pause_after_completion },
                                ..p
                            },
                        ),
                        ..v1
                    },
                    _ => v1,
                },
                None => v1,
            }
        } else {
            v1
        }
    }
}

} // verus!
