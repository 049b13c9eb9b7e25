//! Properties of the policy that span several operations.

use vstd::prelude::*;
use super::types::{
    WorkerWithDpRank, WorkerCapacity, WorkerEligibilitySnapshot, AdmissionDecision,
};
use super::program::{Program, ProgramState, is_marked, running_program};
use super::ordered::{keys_distinct, has_key, key_index};
use super::sessions::{current_of, waiting_of, id_index, SessionView, sessions_wf};
use super::ordered::ids_distinct;
use super::model::{
    PolicyView, Programs, prog_get, prog_set, prog_del, defer_program, assign_program,
    place_turn, offer, finish, placement_candidate, placement_before, has_placement, is_best_placement,
    best_placement,
};
use super::types::{WorkerPlacement};
use super::rebalance::{
    keeps, kept_upto, expire, resume, resume_unmetered, apply_picks, greedy, force_resume, pause_idle,
    mark_running, relieve, relieve_all, reconcile, Pick,
};
use super::types::{AdmissionId, PressureCapacity, AdmissionAction};

verus! {

/// Setting a program: the session reads it back, the others are unchanged.
pub proof fn lemma_prog_set(ps: Programs, s: Seq<char>, p: Program)
    requires
        keys_distinct(ps),
    ensures
        keys_distinct(prog_set(ps, s, p)),
        prog_get(prog_set(ps, s, p), s) == Some(p),
        forall|k: Seq<char>| k != s ==> #[trigger] prog_get(prog_set(ps, s, p), k) == prog_get(ps, k),
{
    let r = prog_set(ps, s, p);
    if has_key(ps, s) {
        let i = key_index(ps, s);
        assert(r[i].0 == s);
        assert forall|a: int, b: int| 0 <= a < r.len() && 0 <= b < r.len() && a != b implies r[a].0 != r[b].0 by {
            assert(r[a].0 == ps[a].0);
            assert(r[b].0 == ps[b].0);
        }
        assert(has_key(r, s));
        let j = key_index(r, s);
        assert(j == i);
        assert forall|k: Seq<char>| k != s implies #[trigger] prog_get(r, k) == prog_get(ps, k) by {
            if has_key(ps, k) {
                let a = key_index(ps, k);
                assert(r[a].0 == k);
                assert(has_key(r, k));
                let b = key_index(r, k);
                assert(r[b].0 == ps[b].0);
                assert(a == b);
            }
            if has_key(r, k) {
                let b = key_index(r, k);
                assert(ps[b].0 == k);
            }
        }
    } else {
        let i = ps.len() as int;
        assert(r[i].0 == s);
        assert forall|a: int, b: int| 0 <= a < r.len() && 0 <= b < r.len() && a != b implies r[a].0 != r[b].0 by {
            if a < i && b < i {
                assert(r[a].0 == ps[a].0);
                assert(r[b].0 == ps[b].0);
            } else if a < i {
                assert(r[a].0 == ps[a].0);
            } else if b < i {
                assert(r[b].0 == ps[b].0);
            }
        }
        assert(has_key(r, s));
        let j = key_index(r, s);
        assert(j == i);
        assert forall|k: Seq<char>| k != s implies #[trigger] prog_get(r, k) == prog_get(ps, k) by {
            if has_key(ps, k) {
                let a = key_index(ps, k);
                assert(r[a].0 == k);
                assert(has_key(r, k));
                let b = key_index(r, k);
                assert(b < i);
                assert(r[b].0 == ps[b].0);
                assert(a == b);
            }
            if has_key(r, k) {
                let b = key_index(r, k);
                assert(b < i);
                assert(ps[b].0 == k);
            }
        }
    }
}

/// Removing a program: the session has none, the others are unchanged.
pub proof fn lemma_prog_del(ps: Programs, s: Seq<char>)
    requires
        keys_distinct(ps),
    ensures
        keys_distinct(prog_del(ps, s)),
        prog_get(prog_del(ps, s), s) is None,
        forall|k: Seq<char>| k != s ==> #[trigger] prog_get(prog_del(ps, s), k) == prog_get(ps, k),
{
    let r = prog_del(ps, s);
    if has_key(ps, s) {
        let i = key_index(ps, s);
        assert forall|a: int| 0 <= a < r.len() implies #[trigger] r[a] == (if a < i {
            ps[a]
        } else {
            ps[a + 1]
        }) by {}
        assert forall|a: int, b: int| 0 <= a < r.len() && 0 <= b < r.len() && a != b implies r[a].0 != r[b].0 by {
            let a2 = if a < i { a } else { a + 1 };
            let b2 = if b < i { b } else { b + 1 };
            assert(r[a] == ps[a2]);
            assert(r[b] == ps[b2]);
        }
        if has_key(r, s) {
            let b = key_index(r, s);
            let b2 = if b < i { b } else { b + 1 };
            assert(r[b] == ps[b2]);
        }
        assert forall|k: Seq<char>| k != s implies #[trigger] prog_get(r, k) == prog_get(ps, k) by {
            if has_key(ps, k) {
                let a = key_index(ps, k);
                assert(a != i);
                let a1 = if a < i { a } else { a - 1 };
                assert(r[a1] == ps[a]);
                assert(has_key(r, k));
                let b = key_index(r, k);
                let b2 = if b < i { b } else { b + 1 };
                assert(r[b] == ps[b2]);
                assert(b2 == a);
            }
            if has_key(r, k) {
                let b = key_index(r, k);
                let b2 = if b < i { b } else { b + 1 };
                assert(r[b] == ps[b2]);
            }
        }
    }
}

/// Changing session `s`'s program with `assign_program` or `defer_program`
/// keeps it present and leaves the other sessions alone.
proof fn lemma_assign_defer(ps: Programs, s: Seq<char>)
    requires
        keys_distinct(ps),
        prog_get(ps, s) is Some,
    ensures
        forall|w: Option<WorkerWithDpRank>|
            keys_distinct(#[trigger] assign_program(ps, s, w)) && prog_get(assign_program(ps, s, w), s) is Some,
        forall|now: u64, keep: bool|
            keys_distinct(#[trigger] defer_program(ps, s, now, keep)) && prog_get(defer_program(ps, s, now, keep), s)
                is Some,
{
    let p = prog_get(ps, s)->0;
    assert forall|w: Option<WorkerWithDpRank>|
        keys_distinct(#[trigger] assign_program(ps, s, w)) && prog_get(assign_program(ps, s, w), s) is Some by {
        lemma_prog_set(ps, s, Program { assigned_worker: w, ..p });
    }
    assert forall|now: u64, keep: bool|
        keys_distinct(#[trigger] defer_program(ps, s, now, keep)) && prog_get(defer_program(ps, s, now, keep), s)
            is Some by {
        lemma_prog_set(
            ps,
            s,
            Program {
                state: ProgramState::Suspended { footprint: super::program::footprint_of(p), since: now },
                assigned_worker: if keep {
                    p.assigned_worker
                } else {
                    None
                },
                step_count: p.step_count,
            },
        );
    }
}

/// Placing a turn changes only session `s`'s program, which stays present.
proof fn lemma_place_turn_frame(
    v: PolicyView,
    usage_ps: Programs,
    s: Seq<char>,
    now: u64,
    caps: Seq<WorkerCapacity>,
    elig: WorkerEligibilitySnapshot,
    tokens: usize,
    assigned: Option<WorkerWithDpRank>,
    was_new: bool,
)
    requires
        keys_distinct(v.programs),
        prog_get(v.programs, s) is Some,
    ensures
        ({
            let r = place_turn(v, usage_ps, s, now, caps, elig, tokens, assigned, was_new).0;
            &&& r.requests == v.requests
            &&& r.sessions == v.sessions
            &&& keys_distinct(r.programs)
            &&& prog_get(r.programs, s) is Some
        }),
{
    lemma_assign_defer(v.programs, s);
    let ps2 = assign_program(v.programs, s, None);
    lemma_assign_defer(ps2, s);
}

/// A non-final turn of an idle session: the state it leaves.
proof fn lemma_begin_turn(
    v: PolicyView,
    id: u64,
    s: Seq<char>,
    ctx: usize,
    now: u64,
    caps: Seq<WorkerCapacity>,
    elig: WorkerEligibilitySnapshot,
)
    requires
        keys_distinct(v.programs),
        current_of(v.sessions, s) is None,
    ensures
        ({
            let v1 = offer(v, id, Some(s), false, ctx, now, caps, elig).0;
            &&& keys_distinct(v1.programs)
            &&& prog_get(v1.programs, s) is Some
            &&& current_of(v1.sessions, s) == Some(id)
            &&& waiting_of(v1.sessions, s) == waiting_of(v.sessions, s)
            &&& v1.requests.contains_key(id)
            &&& v1.requests[id].session == s
            &&& !v1.requests[id].session_final
            &&& v1.requests[id].prior == prog_get(v.programs, s)
        }),
{
    let prior = prog_get(v.programs, s);
    let assigned = match prior {
        Some(p) => p.assigned_worker,
        None => None,
    };
    let step = match prior {
        Some(p) => super::model::sat_inc(p.step_count),
        None => 1,
    };
    let rp = running_program(ctx, assigned, step);
    lemma_prog_set(v.programs, s, rp);
    let ps1 = prog_set(v.programs, s, rp);
    lemma_assign_defer(ps1, s);
    let v0 = PolicyView {
        requests: v.requests.insert(
            id,
            super::model::RequestView { session: s, session_final: false, context_tokens: ctx, prior: None },
        ),
        ..v
    };
    let req = v0.requests[id];
    let v1 = PolicyView {
        programs: ps1,
        requests: v0.requests.insert(id, super::model::RequestView { prior, ..req }),
        sessions: super::sessions::with_current(v0.sessions, s, Some(id)),
        ..v0
    };
    lemma_place_turn_frame(v1, v.programs, s, now, caps, elig, ctx, assigned, prior is None);
}

/// Withdrawing a turn undoes it: when a request of a session that serves no
/// request (and so, its queue being owned, has none waiting) is offered and
/// then aborted, the session's program is what it was before the offer (or
/// absent, if it had none).
pub proof fn law_abort_restores_program(
    v: PolicyView,
    id: u64,
    s: Seq<char>,
    ctx: usize,
    now: u64,
    caps: Seq<WorkerCapacity>,
    elig: WorkerEligibilitySnapshot,
    later: u64,
    caps2: Seq<WorkerCapacity>,
    elig2: WorkerEligibilitySnapshot,
)
    requires
        keys_distinct(v.programs),
        queues_owned(v),
        current_of(v.sessions, s) is None,
    ensures
        ({
            let v1 = offer(v, id, Some(s), false, ctx, now, caps, elig).0;
            let (v2, acts) = finish(v1, id, None, later, caps2, elig2);
            &&& prog_get(v2.programs, s) == prog_get(v.programs, s)
            &&& acts.len() == 0
            &&& current_of(v2.sessions, s) is None
        }),
{
    assert(waiting_of(v.sessions, s).len() == 0);
    lemma_begin_turn(v, id, s, ctx, now, caps, elig);
    let v1 = offer(v, id, Some(s), false, ctx, now, caps, elig).0;
    match prog_get(v.programs, s) {
        Some(p) => {
            lemma_prog_set(v1.programs, s, p);
        },
        None => {
            lemma_prog_del(v1.programs, s);
        },
    }
}

/// A completed turn commits the reported context: after a request of a
/// session that serves no request (and so has none waiting) is offered and
/// completes with
/// `final_ctx` tokens at `later`, the session's program is idle and resident
/// with exactly that footprint since `later`.
pub proof fn law_completion_commits_context(
    v: PolicyView,
    id: u64,
    s: Seq<char>,
    ctx: usize,
    now: u64,
    caps: Seq<WorkerCapacity>,
    elig: WorkerEligibilitySnapshot,
    final_ctx: usize,
    later: u64,
    caps2: Seq<WorkerCapacity>,
    elig2: WorkerEligibilitySnapshot,
)
    requires
        keys_distinct(v.programs),
        queues_owned(v),
        current_of(v.sessions, s) is None,
    ensures
        ({
            let v1 = offer(v, id, Some(s), false, ctx, now, caps, elig).0;
            let v2 = finish(v1, id, Some(final_ctx), later, caps2, elig2).0;
            &&& prog_get(v2.programs, s) is Some
            &&& prog_get(v2.programs, s)->0.state == (ProgramState::IdleResident {
                footprint: final_ctx,
                last_activity: later,
            })
        }),
{
    assert(waiting_of(v.sessions, s).len() == 0);
    lemma_begin_turn(v, id, s, ctx, now, caps, elig);
    let v1 = offer(v, id, Some(s), false, ctx, now, caps, elig).0;
    let p = prog_get(v1.programs, s)->0;
    let q = Program { state: ProgramState::IdleResident { footprint: final_ctx, last_activity: later }, ..p };
    lemma_prog_set(v1.programs, s, q);
    lemma_offered_program_unmarked(v, id, s, ctx, now, caps, elig);
}

/// The program a non-final turn leaves is not marked to pause.
proof fn lemma_offered_program_unmarked(
    v: PolicyView,
    id: u64,
    s: Seq<char>,
    ctx: usize,
    now: u64,
    caps: Seq<WorkerCapacity>,
    elig: WorkerEligibilitySnapshot,
)
    requires
        keys_distinct(v.programs),
        current_of(v.sessions, s) is None,
    ensures
        !is_marked(prog_get(offer(v, id, Some(s), false, ctx, now, caps, elig).0.programs, s)->0),
{
    let prior = prog_get(v.programs, s);
    let assigned = match prior {
        Some(p) => p.assigned_worker,
        None => None,
    };
    let step = match prior {
        Some(p) => super::model::sat_inc(p.step_count),
        None => 1,
    };
    let rp = running_program(ctx, assigned, step);
    lemma_prog_set(v.programs, s, rp);
    let ps1 = prog_set(v.programs, s, rp);
    let q1 = Program { assigned_worker: None, ..rp };
    lemma_prog_set(ps1, s, q1);
    let ps2 = assign_program(ps1, s, None);
    assert forall|w: Option<WorkerWithDpRank>| !is_marked(#[trigger] prog_get(assign_program(ps1, s, w), s)->0) by {
        lemma_prog_set(ps1, s, Program { assigned_worker: w, ..rp });
    }
    assert forall|w: Option<WorkerWithDpRank>| !is_marked(#[trigger] prog_get(assign_program(ps2, s, w), s)->0) by {
        lemma_prog_set(ps2, s, Program { assigned_worker: w, ..q1 });
    }
    assert forall|t: u64, keep: bool| !is_marked(#[trigger] prog_get(defer_program(ps1, s, t, keep), s)->0) by {
        lemma_prog_set(
            ps1,
            s,
            Program {
                state: ProgramState::Suspended { footprint: ctx, since: t },
                assigned_worker: if keep {
                    rp.assigned_worker
                } else {
                    None
                },
                step_count: rp.step_count,
            },
        );
    }
    assert forall|t: u64, keep: bool| !is_marked(#[trigger] prog_get(defer_program(ps2, s, t, keep), s)->0) by {
        lemma_prog_set(
            ps2,
            s,
            Program {
                state: ProgramState::Suspended { footprint: ctx, since: t },
                assigned_worker: if keep {
                    q1.assigned_worker
                } else {
                    None
                },
                step_count: q1.step_count,
            },
        );
    }
}

/// A final request releases its session's program as soon as it begins:
/// offered while the session is idle, it leaves the session without a
/// program and is released at once.
pub proof fn law_final_request_releases_program(
    v: PolicyView,
    id: u64,
    s: Seq<char>,
    ctx: usize,
    now: u64,
    caps: Seq<WorkerCapacity>,
    elig: WorkerEligibilitySnapshot,
)
    requires
        keys_distinct(v.programs),
        current_of(v.sessions, s) is None,
    ensures
        ({
            let (v1, d) = offer(v, id, Some(s), true, ctx, now, caps, elig);
            &&& prog_get(v1.programs, s) is None
            &&& d is Ready
            &&& current_of(v1.sessions, s) == Some(id)
        }),
{
    lemma_prog_del(v.programs, s);
}

/// A session that lost its program starts over: the next non-final turn of
/// an idle session without a program creates a program at its first step.
pub proof fn law_new_program_starts_at_first_step(
    v: PolicyView,
    id: u64,
    s: Seq<char>,
    ctx: usize,
    now: u64,
    caps: Seq<WorkerCapacity>,
    elig: WorkerEligibilitySnapshot,
)
    requires
        keys_distinct(v.programs),
        current_of(v.sessions, s) is None,
        prog_get(v.programs, s) is None,
    ensures
        prog_get(offer(v, id, Some(s), false, ctx, now, caps, elig).0.programs, s) is Some,
        prog_get(offer(v, id, Some(s), false, ctx, now, caps, elig).0.programs, s)->0.step_count == 1,
{
    lemma_begin_turn(v, id, s, ctx, now, caps, elig);
    let rp = running_program(ctx, None, 1);
    lemma_prog_set(v.programs, s, rp);
    let ps1 = prog_set(v.programs, s, rp);
    assert forall|w: Option<WorkerWithDpRank>| (#[trigger] prog_get(assign_program(ps1, s, w), s)->0).step_count == 1 by {
        lemma_prog_set(ps1, s, Program { assigned_worker: w, ..rp });
    }
    assert forall|t: u64, keep: bool| (#[trigger] prog_get(defer_program(ps1, s, t, keep), s)->0).step_count == 1 by {
        lemma_prog_set(
            ps1,
            s,
            Program {
                state: ProgramState::Suspended { footprint: ctx, since: t },
                assigned_worker: None,
                step_count: 1,
            },
        );
    }
}

/// Among the first `n` capacity entries, `w` is a candidate and no candidate
/// comes before it.
pub open spec fn best_upto(
    ps: Programs,
    caps: Seq<WorkerCapacity>,
    elig: WorkerEligibilitySnapshot,
    tokens: usize,
    n: int,
    w: WorkerWithDpRank,
) -> bool {
    &&& exists|i: int| 0 <= i < n && #[trigger] placement_candidate(ps, caps, elig, tokens, i) && caps[i].worker == w
    &&& forall|j: int|
        0 <= j < n && #[trigger] placement_candidate(ps, caps, elig, tokens, j) ==> !placement_before(ps, caps[j].worker, w)
}

proof fn lemma_best_upto_exists(
    ps: Programs,
    caps: Seq<WorkerCapacity>,
    elig: WorkerEligibilitySnapshot,
    tokens: usize,
    n: int,
)
    requires
        0 <= n <= caps.len(),
        exists|i: int| 0 <= i < n && #[trigger] placement_candidate(ps, caps, elig, tokens, i),
    ensures
        exists|w: WorkerWithDpRank| #[trigger] best_upto(ps, caps, elig, tokens, n, w),
    decreases n,
{
    let c = caps[n - 1].worker;
    if exists|i: int| 0 <= i < n - 1 && #[trigger] placement_candidate(ps, caps, elig, tokens, i) {
        lemma_best_upto_exists(ps, caps, elig, tokens, n - 1);
        let w0 = choose|w: WorkerWithDpRank| #[trigger] best_upto(ps, caps, elig, tokens, n - 1, w);
        if placement_candidate(ps, caps, elig, tokens, n - 1) && placement_before(ps, c, w0) {
            assert(best_upto(ps, caps, elig, tokens, n, c));
        } else {
            let i0 = choose|i: int|
                0 <= i < n - 1 && #[trigger] placement_candidate(ps, caps, elig, tokens, i) && caps[i].worker == w0;
            assert(best_upto(ps, caps, elig, tokens, n, w0));
        }
    } else {
        assert(placement_candidate(ps, caps, elig, tokens, n - 1));
        assert(best_upto(ps, caps, elig, tokens, n, c));
    }
}

/// When some eligible worker has room, the chosen placement is the least
/// used eligible worker with room, the lowest worker on ties.
pub proof fn lemma_best_placement(
    ps: Programs,
    caps: Seq<WorkerCapacity>,
    elig: WorkerEligibilitySnapshot,
    tokens: usize,
)
    requires
        has_placement(ps, caps, elig, tokens),
    ensures
        is_best_placement(ps, caps, elig, tokens, best_placement(ps, caps, elig, tokens)),
{
    let i = choose|i: int| #[trigger] placement_candidate(ps, caps, elig, tokens, i);
    lemma_best_upto_exists(ps, caps, elig, tokens, caps.len() as int);
    let w = choose|w: WorkerWithDpRank| #[trigger] best_upto(ps, caps, elig, tokens, caps.len() as int, w);
    assert(is_best_placement(ps, caps, elig, tokens, w));
}

/// A new session goes to the least used eligible worker with room for its
/// context (the lowest worker on ties), which becomes its sticky worker.
pub proof fn law_new_session_least_used_worker(
    v: PolicyView,
    id: u64,
    s: Seq<char>,
    ctx: usize,
    now: u64,
    caps: Seq<WorkerCapacity>,
    elig: WorkerEligibilitySnapshot,
)
    requires
        keys_distinct(v.programs),
        current_of(v.sessions, s) is None,
        prog_get(v.programs, s) is None,
    ensures
        ({
            let (v1, d) = offer(v, id, Some(s), false, ctx, now, caps, elig);
            d matches AdmissionDecision::Ready(WorkerPlacement::Exact(w)) ==> {
                &&& is_best_placement(v.programs, caps, elig, ctx, w)
                &&& prog_get(v1.programs, s) is Some
                &&& prog_get(v1.programs, s)->0.assigned_worker == Some(w)
            }
        }),
{
    let (v1, d) = offer(v, id, Some(s), false, ctx, now, caps, elig);
    if has_placement(v.programs, caps, elig, ctx) {
        lemma_best_placement(v.programs, caps, elig, ctx);
    }
    let rp = running_program(ctx, None, 1);
    lemma_prog_set(v.programs, s, rp);
    let ps1 = prog_set(v.programs, s, rp);
    let w = best_placement(v.programs, caps, elig, ctx);
    lemma_prog_set(ps1, s, Program { assigned_worker: Some(w), ..rp });
}


/// Beginning a non-final turn of an idle session records the session's
/// program as it was before the turn (or none) as the request's prior
/// program, which an abort restores.
pub proof fn law_begin_records_prior(
    v: PolicyView,
    id: u64,
    s: Seq<char>,
    ctx: usize,
    now: u64,
    caps: Seq<WorkerCapacity>,
    elig: WorkerEligibilitySnapshot,
)
    requires
        keys_distinct(v.programs),
        current_of(v.sessions, s) is None,
    ensures
        offer(v, id, Some(s), false, ctx, now, caps, elig).0.requests[id].prior == prog_get(v.programs, s),
{
    lemma_begin_turn(v, id, s, ctx, now, caps, elig);
}

/// The prior program a running turn recorded survives the events that come
/// before its end: the router dispatching any request, progress reports of
/// any request, and reconcile passes.
pub proof fn law_prior_survives_dispatch_progress_and_reconcile(
    v: PolicyView,
    id: u64,
    other: u64,
    worker: WorkerWithDpRank,
    tokens: usize,
    now: u64,
    caps: Seq<PressureCapacity>,
    list: Seq<(AdmissionId, WorkerEligibilitySnapshot)>,
)
    requires
        v.requests.contains_key(id),
    ensures
        super::model::dispatched(v, other, worker).requests[id] == v.requests[id],
        super::model::progressed(v, other, tokens).requests[id].prior == v.requests[id].prior,
        super::model::progressed(v, other, tokens).requests[id].session == v.requests[id].session,
        reconcile(v, now, caps, list).0.requests == v.requests,
        reconcile(v, now, caps, list).0.sessions == v.sessions,
{
    law_reconcile_only_moves_programs(v, now, caps, list);
}

/// Aborting a session's current non-final turn restores the program the turn
/// began from: with no request waiting, the session's program is again that
/// prior program (or absent) and nothing is released; with requests waiting,
/// the first of them (when not itself final) begins from that restored
/// program, which becomes its own prior program.
pub proof fn law_abort_restores_prior(
    v: PolicyView,
    id: u64,
    now: u64,
    caps: Seq<WorkerCapacity>,
    elig: WorkerEligibilitySnapshot,
)
    requires
        keys_distinct(v.programs),
        v.requests.contains_key(id),
        !v.requests[id].session_final,
        current_of(v.sessions, v.requests[id].session) == Some(id),
        queues_owned(v),
    ensures
        ({
            let s = v.requests[id].session;
            let (v2, acts) = finish(v, id, None, now, caps, elig);
            &&& waiting_of(v.sessions, s).len() == 0 ==> {
                &&& prog_get(v2.programs, s) == v.requests[id].prior
                &&& acts.len() == 0
                &&& current_of(v2.sessions, s) is None
            }
            &&& (waiting_of(v.sessions, s).len() > 0 && !v.requests[waiting_of(v.sessions, s)[0]].session_final) ==> {
                &&& v2.requests.contains_key(waiting_of(v.sessions, s)[0])
                &&& v2.requests[waiting_of(v.sessions, s)[0]].prior == v.requests[id].prior
                &&& current_of(v2.sessions, s) == Some(waiting_of(v.sessions, s)[0])
            }
        }),
{
    let s = v.requests[id].session;
    let ps = v.programs;
    match v.requests[id].prior {
        Some(p) => {
            lemma_prog_set(ps, s, p);
        },
        None => {
            lemma_prog_del(ps, s);
        },
    }
    let restored = match v.requests[id].prior {
        Some(p) => prog_set(ps, s, p),
        None => prog_del(ps, s),
    };
    assert(prog_get(restored, s) == v.requests[id].prior);
    let w = waiting_of(v.sessions, s);
    if w.len() > 0 {
        assert(v.sessions[s].waiting[0] == w[0]);
    }
    if w.len() > 0 && !v.requests[w[0]].session_final {
        let nid = w[0];
        let v1 = PolicyView { requests: v.requests.remove(id), ..v };
        let v2 = PolicyView {
            sessions: v.sessions.insert(s, SessionView { current: None, waiting: w }),
            ..v1
        };
        let v3 = PolicyView { programs: restored, ..v2 };
        let v4 = PolicyView {
            sessions: v3.sessions.insert(s, SessionView { current: current_of(v3.sessions, s), waiting: w.drop_first() }),
            ..v3
        };
        assert(v4.requests.contains_key(nid));
        assert(prog_get(v4.programs, s) == v.requests[id].prior);
        let req = v4.requests[nid];
        let prior = prog_get(v4.programs, s);
        let assigned = match prior {
            Some(p) => p.assigned_worker,
            None => None,
        };
        let step = match prior {
            Some(p) => super::model::sat_inc(p.step_count),
            None => 1,
        };
        let v5 = PolicyView {
            programs: prog_set(v4.programs, s, running_program(req.context_tokens, assigned, step)),
            requests: v4.requests.insert(nid, super::model::RequestView { prior, ..req }),
            sessions: super::sessions::with_current(v4.sessions, s, Some(nid)),
            ..v4
        };
        assert(super::model::begin_request(v4, nid, s, now, caps, elig).0.requests == v5.requests);
        assert(super::model::begin_request(v4, nid, s, now, caps, elig).0.sessions == v5.sessions);
    }
}

/// A session serves one request at a time: a request offered while its
/// session serves another is deferred, queued last, and changes no program.
pub proof fn law_busy_session_queues(
    v: PolicyView,
    id: u64,
    s: Seq<char>,
    session_final: bool,
    ctx: usize,
    now: u64,
    caps: Seq<WorkerCapacity>,
    elig: WorkerEligibilitySnapshot,
)
    requires
        current_of(v.sessions, s) is Some,
        !waiting_of(v.sessions, s).contains(id),
    ensures
        ({
            let (v1, d) = offer(v, id, Some(s), session_final, ctx, now, caps, elig);
            &&& d == AdmissionDecision::Defer
            &&& v1.programs == v.programs
            &&& current_of(v1.sessions, s) == current_of(v.sessions, s)
            &&& waiting_of(v1.sessions, s) == waiting_of(v.sessions, s).push(id)
        }),
{
}

/// Finishing a session's current request starts exactly its first waiting
/// request: the session then serves that request, the rest of the queue
/// keeps its order, and at most that request is released.
pub proof fn law_finish_promotes_first_waiter(
    v: PolicyView,
    id: u64,
    completed: Option<usize>,
    now: u64,
    caps: Seq<WorkerCapacity>,
    elig: WorkerEligibilitySnapshot,
)
    requires
        v.requests.contains_key(id),
        current_of(v.sessions, v.requests[id].session) == Some(id),
        waiting_of(v.sessions, v.requests[id].session).len() > 0,
        waiting_of(v.sessions, v.requests[id].session)[0] != id,
        v.requests.contains_key(waiting_of(v.sessions, v.requests[id].session)[0]),
    ensures
        ({
            let s = v.requests[id].session;
            let next = waiting_of(v.sessions, s)[0];
            let (v2, acts) = finish(v, id, completed, now, caps, elig);
            &&& current_of(v2.sessions, s) == Some(next)
            &&& waiting_of(v2.sessions, s) == waiting_of(v.sessions, s).drop_first()
            &&& acts.len() <= 1
            &&& forall|k: int| 0 <= k < acts.len() ==> (#[trigger] acts[k]).id.value == next
        }),
{
}

/// Withdrawing a request that still waits on its session only takes it out
/// of the queue: the session keeps serving its current request, no program
/// changes and nothing is released.
pub proof fn law_withdrawn_waiter_leaves_queue(
    v: PolicyView,
    id: u64,
    completed: Option<usize>,
    now: u64,
    caps: Seq<WorkerCapacity>,
    elig: WorkerEligibilitySnapshot,
)
    requires
        v.requests.contains_key(id),
        current_of(v.sessions, v.requests[id].session) != Some(id),
        waiting_of(v.sessions, v.requests[id].session).contains(id),
        ids_distinct(waiting_of(v.sessions, v.requests[id].session)),
    ensures
        ({
            let s = v.requests[id].session;
            let (v2, acts) = finish(v, id, completed, now, caps, elig);
            &&& acts.len() == 0
            &&& v2.programs == v.programs
            &&& !v2.requests.contains_key(id)
            &&& current_of(v2.sessions, s) == current_of(v.sessions, s)
            &&& !waiting_of(v2.sessions, s).contains(id)
            &&& waiting_of(v2.sessions, s).len() + 1 == waiting_of(v.sessions, s).len()
            &&& forall|x: u64| x != id ==> (waiting_of(v2.sessions, s).contains(x) <==> waiting_of(
                v.sessions,
                s,
            ).contains(x))
        }),
{
    let s = v.requests[id].session;
    let w = waiting_of(v.sessions, s);
    let i = id_index(w, id);
    let w2 = w.remove(i);
    assert forall|x: u64| x != id implies (w2.contains(x) <==> w.contains(x)) by {
        if w.contains(x) {
            let j = choose|j: int| 0 <= j < w.len() && w[j] == x;
            if j < i {
                assert(w2[j] == x);
            } else {
                assert(j != i);
                assert(w2[j - 1] == x);
            }
        }
    }
    assert(!w2.contains(id)) by {
        if w2.contains(id) {
            let j = choose|j: int| 0 <= j < w2.len() && w2[j] == id;
            if j < i {
                assert(w[j] == id);
            } else {
                assert(w[j + 1] == id);
            }
        }
    }
}

/// Requests without a session bypass the policy and change nothing.
pub proof fn law_sessionless_bypass(
    v: PolicyView,
    id: u64,
    session_final: bool,
    ctx: usize,
    now: u64,
    caps: Seq<WorkerCapacity>,
    elig: WorkerEligibilitySnapshot,
)
    ensures
        offer(v, id, None, session_final, ctx, now, caps, elig) == (v, AdmissionDecision::Bypass),
{
}

proof fn lemma_kept(
    ps: Programs,
    sessions: Map<Seq<char>, SessionView>,
    now: u64,
    retention: u64,
    n: int,
)
    requires
        keys_distinct(ps),
        0 <= n <= ps.len(),
    ensures
        keys_distinct(kept_upto(ps, sessions, now, retention, n)),
        forall|k: Seq<char>| #[trigger] prog_get(kept_upto(ps, sessions, now, retention, n), k) == match prog_get(ps.take(n), k) {
            Some(p) => if keeps(sessions, now, retention, (k, p)) {
                Some(p)
            } else {
                None
            },
            None => None,
        },
    decreases n,
{
    let kn = kept_upto(ps, sessions, now, retention, n);
    if n == 0 {
        assert(ps.take(0) =~= Seq::<(Seq<char>, Program)>::empty());
        assert forall|k: Seq<char>| #[trigger] prog_get(kn, k) is None by {}
        assert forall|k: Seq<char>| #[trigger] prog_get(ps.take(n), k) is None by {}
    } else {
        lemma_kept(ps, sessions, now, retention, n - 1);
        let e = ps[n - 1];
        let t0 = ps.take(n - 1);
        let k0 = kept_upto(ps, sessions, now, retention, n - 1);
        assert(keys_distinct(t0));
        assert(!has_key(t0, e.0)) by {
            if has_key(t0, e.0) {
                let i = key_index(t0, e.0);
                assert(ps[i].0 == e.0);
            }
        }
        assert(ps.take(n) =~= t0.push(e));
        assert(prog_set(t0, e.0, e.1) == t0.push(e));
        lemma_prog_set(t0, e.0, e.1);
        assert(prog_get(t0, e.0) is None);
        assert(prog_get(k0, e.0) is None);
        assert(!has_key(k0, e.0));
        if keeps(sessions, now, retention, e) {
            assert(prog_set(k0, e.0, e.1) == k0.push(e));
            lemma_prog_set(k0, e.0, e.1);
        } else {
            assert forall|k: Seq<char>| #[trigger] prog_get(kn, k) == match prog_get(ps.take(n), k) {
                Some(p) => if keeps(sessions, now, retention, (k, p)) {
                    Some(p)
                } else {
                    None
                },
                None => None,
            } by {
                assert(prog_get(k0, k) == prog_get(kn, k));
                if k != e.0 {
                    assert(prog_get(ps.take(n), k) == prog_get(t0, k));
                } else {
                    assert(prog_get(ps.take(n), k) == Some(e.1));
                }
            }
        }
    }
}

/// Retention expiry forgets exactly the quiescent programs held past the
/// retention period: after `expire`, a session keeps its program if and
/// only if the session has requests, the program runs a turn, or it has been
/// retained for less than the retention period; kept programs are unchanged.
pub proof fn law_expiry_keeps_exactly_live_programs(v: PolicyView, now: u64, s: Seq<char>)
    requires
        keys_distinct(v.programs),
    ensures
        prog_get(expire(v, now).programs, s) == match prog_get(v.programs, s) {
            Some(p) => if keeps(v.sessions, now, v.timing.session_retention_nanos, (s, p)) {
                Some(p)
            } else {
                None
            },
            None => None,
        },
{
    lemma_kept(v.programs, v.sessions, now, v.timing.session_retention_nanos, v.programs.len() as int);
    assert(v.programs.take(v.programs.len() as int) =~= v.programs);
}


// ---------------------------------------------------------------------------
// The reconcile pass

/// `b` differs from `a` at most in its programs and its next tick.
pub open spec fn programs_only(a: PolicyView, b: PolicyView) -> bool {
    &&& a.timing == b.timing
    &&& a.requests == b.requests
    &&& a.sessions == b.sessions
}

proof fn lemma_resume_unmetered_frame(
    v: PolicyView,
    caps: Seq<PressureCapacity>,
    dl: Seq<(AdmissionId, WorkerEligibilitySnapshot)>,
    keys: Seq<Seq<char>>,
    n: int,
)
    ensures
        programs_only(v, resume_unmetered(v, caps, dl, keys, n).0),
    decreases n,
{
    if n > 0 {
        lemma_resume_unmetered_frame(v, caps, dl, keys, n - 1);
    }
}

proof fn lemma_apply_picks_frame(
    v: PolicyView,
    picks: Seq<Pick>,
    ws: Seq<WorkerWithDpRank>,
    usage: spec_fn(WorkerWithDpRank) -> usize,
    running: spec_fn(WorkerWithDpRank) -> usize,
    n: int,
)
    ensures
        programs_only(v, apply_picks(v, picks, ws, usage, running, n).0),
    decreases n,
{
    if n > 0 {
        lemma_apply_picks_frame(v, picks, ws, usage, running, n - 1);
    }
}

proof fn lemma_force_resume_frame(
    v: PolicyView,
    dl: Seq<(AdmissionId, WorkerEligibilitySnapshot)>,
    keys: Seq<Seq<char>>,
    n: int,
)
    ensures
        programs_only(v, force_resume(v, dl, keys, n).0),
    decreases n,
{
    if n > 0 {
        lemma_force_resume_frame(v, dl, keys, n - 1);
    }
}

proof fn lemma_pause_idle_frame(
    v: PolicyView,
    w: WorkerWithDpRank,
    target: usize,
    cands: Seq<(usize, Seq<char>)>,
    usage: spec_fn(WorkerWithDpRank) -> usize,
    n: int,
)
    ensures
        programs_only(v, pause_idle(v, w, target, cands, usage, n).0),
    decreases n,
{
    if n > 0 {
        lemma_pause_idle_frame(v, w, target, cands, usage, n - 1);
    }
}

proof fn lemma_mark_running_frame(
    v: PolicyView,
    target: usize,
    cands: Seq<(usize, Seq<char>)>,
    projected: usize,
    n: int,
)
    ensures
        programs_only(v, mark_running(v, target, cands, projected, n).0),
    decreases n,
{
    if n > 0 {
        lemma_mark_running_frame(v, target, cands, projected, n - 1);
    }
}

proof fn lemma_relieve_all_frame(
    v: PolicyView,
    ps0: Programs,
    caps: Seq<PressureCapacity>,
    usage: spec_fn(WorkerWithDpRank) -> usize,
    n: int,
)
    ensures
        programs_only(v, relieve_all(v, ps0, caps, usage, n).0),
    decreases n,
{
    if n > 0 {
        lemma_relieve_all_frame(v, ps0, caps, usage, n - 1);
        let (v1, u1, p1, m1) = relieve_all(v, ps0, caps, usage, n - 1);
        let cap = caps[n - 1];
        let w = cap.capacity.worker;
        if u1(w) > cap.threshold_tokens {
            let idle = super::rebalance::candidates(ps0, w, true);
            lemma_pause_idle_frame(v1, w, cap.target_tokens, idle, u1, idle.len() as int);
            let (v2, u2, paused) = pause_idle(v1, w, cap.target_tokens, idle, u1, idle.len() as int);
            let running = super::rebalance::candidates(ps0, w, false);
            let projected = super::usage::sat_sub(u2(w), super::rebalance::marked_tokens(ps0, w, ps0.len() as int));
            lemma_mark_running_frame(v2, cap.target_tokens, running, projected, running.len() as int);
        }
    }
}

/// Request `id` is known and is the request its session serves.
pub open spec fn serving(v: PolicyView, id: u64) -> bool {
    v.requests.contains_key(id) && exists|s: Seq<char>| current_of(v.sessions, s) == Some(id)
}

/// Every released request is one that its session serves.
pub open spec fn releases_serving(v: PolicyView, acts: Seq<AdmissionAction>) -> bool {
    forall|k: int| 0 <= k < acts.len() ==> serving(v, (#[trigger] acts[k]).id.value)
}

proof fn lemma_resume_releases(v: PolicyView, s: Seq<char>, w: Option<WorkerWithDpRank>)
    ensures
        releases_serving(v, resume(v, s, w).1),
{
    let acts = resume(v, s, w).1;
    assert forall|k: int| 0 <= k < acts.len() implies serving(v, (#[trigger] acts[k]).id.value) by {
        assert(current_of(v.sessions, s) == Some(acts[k].id.value));
    }
}

proof fn lemma_releases_concat(v: PolicyView, v1: PolicyView, a1: Seq<AdmissionAction>, a2: Seq<AdmissionAction>)
    requires
        programs_only(v, v1),
        releases_serving(v, a1),
        releases_serving(v1, a2),
    ensures
        releases_serving(v, a1 + a2),
{
    assert forall|k: int| 0 <= k < (a1 + a2).len() implies serving(v, (#[trigger] (a1 + a2)[k]).id.value) by {
        if k < a1.len() {
            assert((a1 + a2)[k] == a1[k]);
        } else {
            assert((a1 + a2)[k] == a2[k - a1.len()]);
            let id = a2[k - a1.len()].id.value;
            assert(serving(v1, id));
            let t = choose|t: Seq<char>| current_of(v1.sessions, t) == Some(id);
            assert(current_of(v.sessions, t) == Some(id));
        }
    }
}

proof fn lemma_resume_unmetered_releases(
    v: PolicyView,
    caps: Seq<PressureCapacity>,
    dl: Seq<(AdmissionId, WorkerEligibilitySnapshot)>,
    keys: Seq<Seq<char>>,
    n: int,
)
    ensures
        releases_serving(v, resume_unmetered(v, caps, dl, keys, n).1),
    decreases n,
{
    if n > 0 {
        lemma_resume_unmetered_releases(v, caps, dl, keys, n - 1);
        lemma_resume_unmetered_frame(v, caps, dl, keys, n - 1);
        let (v1, a1) = resume_unmetered(v, caps, dl, keys, n - 1);
        match super::rebalance::unmetered_choice(v1, caps, dl, keys[n - 1]) {
            Some(w) => {
                lemma_resume_releases(v1, keys[n - 1], w);
                lemma_releases_concat(v, v1, a1, resume(v1, keys[n - 1], w).1);
            },
            None => {},
        }
    }
}

proof fn lemma_apply_picks_releases(
    v: PolicyView,
    picks: Seq<Pick>,
    ws: Seq<WorkerWithDpRank>,
    usage: spec_fn(WorkerWithDpRank) -> usize,
    running: spec_fn(WorkerWithDpRank) -> usize,
    n: int,
)
    ensures
        releases_serving(v, apply_picks(v, picks, ws, usage, running, n).1),
    decreases n,
{
    if n > 0 {
        lemma_apply_picks_releases(v, picks, ws, usage, running, n - 1);
        lemma_apply_picks_frame(v, picks, ws, usage, running, n - 1);
        let v1 = apply_picks(v, picks, ws, usage, running, n - 1).0;
        let a1 = apply_picks(v, picks, ws, usage, running, n - 1).1;
        lemma_resume_releases(v1, picks[n - 1].session, Some(ws[n - 1]));
        lemma_releases_concat(v, v1, a1, resume(v1, picks[n - 1].session, Some(ws[n - 1])).1);
    }
}

proof fn lemma_force_resume_releases(
    v: PolicyView,
    dl: Seq<(AdmissionId, WorkerEligibilitySnapshot)>,
    keys: Seq<Seq<char>>,
    n: int,
)
    ensures
        releases_serving(v, force_resume(v, dl, keys, n).1),
    decreases n,
{
    if n > 0 {
        lemma_force_resume_releases(v, dl, keys, n - 1);
        lemma_force_resume_frame(v, dl, keys, n - 1);
        let (v1, a1) = force_resume(v, dl, keys, n - 1);
        if !super::rebalance::waits_for_available(v1, dl, keys[n - 1]) {
            lemma_resume_releases(v1, keys[n - 1], None);
            lemma_releases_concat(v, v1, a1, resume(v1, keys[n - 1], None).1);
        }
    }
}

/// A reconcile pass only moves programs between running, resident and paused:
/// it forgets no request, changes no session's current request or queue,
/// keeps the timing, and releases only requests that their sessions serve.
pub proof fn law_reconcile_only_moves_programs(
    v: PolicyView,
    now: u64,
    caps: Seq<PressureCapacity>,
    list: Seq<(AdmissionId, WorkerEligibilitySnapshot)>,
)
    ensures
        programs_only(v, reconcile(v, now, caps, list).0),
        releases_serving(v, reconcile(v, now, caps, list).1),
{
    if now >= v.next_tick {
        let next = if now + v.timing.scheduler_interval_nanos > u64::MAX {
            u64::MAX
        } else {
            (now + v.timing.scheduler_interval_nanos) as u64
        };
        let v1 = expire(PolicyView { next_tick: next, ..v }, now);
        let dl = super::rebalance::deferred_list(v1, list);
        let v2 = PolicyView { programs: super::rebalance::clear_stale(v1.programs, v1.sessions, dl), ..v1 };
        let keys = super::rebalance::suspended_keys(v2.programs);
        lemma_resume_unmetered_frame(v2, caps, dl, keys, keys.len() as int);
        lemma_resume_unmetered_releases(v2, caps, dl, keys, keys.len() as int);
        let (v3, a1) = resume_unmetered(v2, caps, dl, keys, keys.len() as int);
        let usage = |w: WorkerWithDpRank| super::usage::usage_of(v3.programs, w, false);
        let running = |w: WorkerWithDpRank| super::usage::usage_of(v3.programs, w, true);
        if caps.len() != 0 {
            let gkeys = super::rebalance::suspended_keys(v3.programs);
            let slots = super::rebalance::slot_sort(super::rebalance::slots_upto(caps, usage, caps.len() as int));
            if gkeys.len() != 0 && slots.len() != 0 {
                let dev = super::rebalance::device_table(caps, running);
                let order = super::rebalance::paused_order(v3, dl, gkeys, slots, dev);
                let picks = super::rebalance::pick_sort(
                    super::rebalance::select(v3, dl, order, slots, dev, order.len() as int).2,
                );
                let ws = super::rebalance::final_workers(v3, dl, picks, slots, dev);
                lemma_apply_picks_frame(v3, picks, ws, usage, running, picks.len() as int);
                lemma_apply_picks_releases(v3, picks, ws, usage, running, picks.len() as int);
            }
        }
        let (v4, a2, u4, r4) = if caps.len() == 0 {
            (v3, Seq::<AdmissionAction>::empty(), usage, running)
        } else {
            greedy(v3, caps, dl, usage, running)
        };
        lemma_releases_concat(v2, v3, a1, a2);
        let forced = super::rebalance::timed_out_upto(
            v4.programs,
            v4.sessions,
            now,
            v4.timing.resume_timeout_nanos,
            v4.programs.len() as int,
        );
        lemma_force_resume_frame(v4, dl, forced, forced.len() as int);
        lemma_force_resume_releases(v4, dl, forced, forced.len() as int);
        let (v5, a3) = force_resume(v4, dl, forced, forced.len() as int);
        lemma_releases_concat(v2, v4, a1 + a2, a3);
        if caps.len() != 0 {
            lemma_relieve_all_frame(v5, v5.programs, caps, u4, caps.len() as int);
        }
        let acts = reconcile(v, now, caps, list).1;
        assert(acts == a1 + a2 + a3);
        assert forall|k: int| 0 <= k < acts.len() implies serving(v, (#[trigger] acts[k]).id.value) by {
            let id = acts[k].id.value;
            assert(serving(v2, id));
            let t = choose|t: Seq<char>| current_of(v2.sessions, t) == Some(id);
            assert(current_of(v.sessions, t) == Some(id));
        }
    }
}

/// Pressure relief leaves everything alone while every worker is at or
/// below its pause threshold: no program is paused or marked.
pub proof fn law_no_pressure_no_pause(
    v: PolicyView,
    ps0: Programs,
    caps: Seq<PressureCapacity>,
    usage: spec_fn(WorkerWithDpRank) -> usize,
    n: int,
)
    requires
        0 <= n <= caps.len(),
        forall|k: int| 0 <= k < n ==> usage((#[trigger] caps[k]).capacity.worker) <= caps[k].threshold_tokens,
    ensures
        relieve_all(v, ps0, caps, usage, n) == (v, usage, 0usize, 0usize),
    decreases n,
{
    if n > 0 {
        law_no_pressure_no_pause(v, ps0, caps, usage, n - 1);
        assert(usage(caps[n - 1].capacity.worker) <= caps[n - 1].threshold_tokens);
    }
}

/// Pausing idle programs of worker `w` only lowers `w`'s usage, leaves the
/// other workers' usage alone, and does nothing once `w` is at its target.
pub proof fn law_pausing_only_lowers_its_worker(
    v: PolicyView,
    w: WorkerWithDpRank,
    target: usize,
    cands: Seq<(usize, Seq<char>)>,
    usage: spec_fn(WorkerWithDpRank) -> usize,
    n: int,
)
    ensures
        ({
            let (v2, u2, c) = pause_idle(v, w, target, cands, usage, n);
            &&& u2(w) <= usage(w)
            &&& forall|y: WorkerWithDpRank| y != w ==> #[trigger] u2(y) == usage(y)
            &&& usage(w) <= target ==> v2 == v && c == 0
        }),
    decreases n,
{
    if n > 0 {
        law_pausing_only_lowers_its_worker(v, w, target, cands, usage, n - 1);
    }
}

/// Before the next tick a reconcile pass does nothing.
pub proof fn law_reconcile_waits_for_tick(
    v: PolicyView,
    now: u64,
    caps: Seq<PressureCapacity>,
    list: Seq<(AdmissionId, WorkerEligibilitySnapshot)>,
)
    requires
        now < v.next_tick,
    ensures
        reconcile(v, now, caps, list) == (v, Seq::<AdmissionAction>::empty()),
{
}


// ---------------------------------------------------------------------------
// Pausing under pressure

/// A program that relief may pause (`idle`) or mark to pause after its turn
/// (`!idle`) on worker `w`.
pub open spec fn relief_candidate(p: Program, w: WorkerWithDpRank, idle: bool) -> bool {
    &&& !super::program::is_suspended(p)
    &&& p.assigned_worker == Some(w)
    &&& !is_marked(p)
    &&& if idle {
        p.state is IdleResident
    } else {
        p.state is Running
    }
}

proof fn lemma_candidates_upto(ps: Programs, w: WorkerWithDpRank, idle: bool, n: int)
    requires
        keys_distinct(ps),
        0 <= n <= ps.len(),
    ensures
        super::rebalance::candidates_upto(ps, w, idle, n).len() <= n,
        forall|k: int|
            0 <= k < super::rebalance::candidates_upto(ps, w, idle, n).len() ==> exists|i: int|
                0 <= i < n && #[trigger] super::rebalance::candidates_upto(ps, w, idle, n)[k] == (
                    super::program::footprint_of(ps[i].1),
                    ps[i].0,
                ) && relief_candidate(ps[i].1, w, idle),
    decreases n,
{
    if n > 0 {
        lemma_candidates_upto(ps, w, idle, n - 1);
        let r = super::rebalance::candidates_upto(ps, w, idle, n - 1);
        let t = super::rebalance::candidates_upto(ps, w, idle, n);
        assert forall|k: int| 0 <= k < t.len() implies exists|i: int|
            0 <= i < n && #[trigger] t[k] == (super::program::footprint_of(ps[i].1), ps[i].0) && relief_candidate(
                ps[i].1,
                w,
                idle,
            ) by {
            if k < r.len() {
                assert(t[k] == r[k]);
                let i = choose|i: int|
                    0 <= i < n - 1 && #[trigger] r[k] == (super::program::footprint_of(ps[i].1), ps[i].0)
                        && relief_candidate(ps[i].1, w, idle);
                assert(t[k] == (super::program::footprint_of(ps[i].1), ps[i].0));
            } else {
                assert(t[k] == (super::program::footprint_of(ps[n - 1].1), ps[n - 1].0));
            }
        }
    }
}

/// The programs relief considers on a worker come smallest footprint first,
/// and each is a program of that worker that it may pause (idle ones) or
/// mark (running ones), listed with its footprint.
pub proof fn law_relief_candidates_smallest_first(ps: Programs, w: WorkerWithDpRank, idle: bool)
    requires
        keys_distinct(ps),
        ps.len() <= usize::MAX,
    ensures
        forall|i: int, j: int|
            0 <= i < j < super::rebalance::candidates(ps, w, idle).len() ==> (#[trigger] super::rebalance::candidates(
                ps,
                w,
                idle,
            )[i]).0 <= (#[trigger] super::rebalance::candidates(ps, w, idle)[j]).0,
        forall|k: int|
            0 <= k < super::rebalance::candidates(ps, w, idle).len() ==> {
                let c = #[trigger] super::rebalance::candidates(ps, w, idle)[k];
                &&& prog_get(ps, c.1) is Some
                &&& relief_candidate(prog_get(ps, c.1)->0, w, idle)
                &&& c.0 == super::program::footprint_of(prog_get(ps, c.1)->0)
            },
{
    let cu = super::rebalance::candidates_upto(ps, w, idle, ps.len() as int);
    let sk = Seq::new(cu.len(), |i: int| ((cu[i].0 as u64, 0u64, 0u64), i as usize));
    let r = super::keysort::key_sorted(sk);
    let c = super::rebalance::candidates(ps, w, idle);
    lemma_candidates_upto(ps, w, idle, ps.len() as int);
    super::keysort::lemma_sorted_len(sk, sk.len() as int);
    super::keysort::lemma_sorted_members(sk, sk.len() as int);
    super::keysort::lemma_sorted_ordered(sk, sk.len() as int);
    assert(c.len() == r.len());
    assert(r == super::keysort::key_sorted_upto(sk, sk.len() as int));
    assert forall|k: int| 0 <= k < r.len() implies 0 <= (#[trigger] r[k]).1 < cu.len() && r[k].0 == (
        cu[r[k].1 as int].0 as u64,
        0u64,
        0u64,
    ) by {
        assert(super::keysort::key_sorted_upto(sk, sk.len() as int)[k] == r[k]);
        let i = choose|i: int| 0 <= i < sk.len() && super::keysort::key_sorted_upto(sk, sk.len() as int)[k] == sk[i];
        assert(r[k] == sk[i]);
        assert(sk[i].1 as int == i);
    }
    assert forall|i: int, j: int| 0 <= i < j < c.len() implies (#[trigger] c[i]).0 <= (#[trigger] c[j]).0 by {
        assert(!super::keysort::key_gt(r[i].0, r[j].0));
        assert(r[i].0 == (cu[r[i].1 as int].0 as u64, 0u64, 0u64));
        assert(r[j].0 == (cu[r[j].1 as int].0 as u64, 0u64, 0u64));
    }
    assert forall|k: int| 0 <= k < c.len() implies {
        let e = #[trigger] c[k];
        &&& prog_get(ps, e.1) is Some
        &&& relief_candidate(prog_get(ps, e.1)->0, w, idle)
        &&& e.0 == super::program::footprint_of(prog_get(ps, e.1)->0)
    } by {
        let m = r[k].1 as int;
        assert(c[k] == cu[m]);
        let i = choose|i: int|
            0 <= i < ps.len() && #[trigger] cu[m] == (super::program::footprint_of(ps[i].1), ps[i].0)
                && relief_candidate(ps[i].1, w, idle);
        super::policy::lemma_key_index(ps, i);
    }
}


/// An idle program paused: resident no more, and without a sticky worker.
pub open spec fn suspended_from(p: Program) -> Program {
    match p.state {
        ProgramState::IdleResident { footprint, last_activity } => Program {
            state: ProgramState::Suspended { footprint, since: last_activity },
            assigned_worker: None,
            step_count: p.step_count,
        },
        _ => p,
    }
}

/// `q` is `p` after relief: unchanged, an idle program paused, or a running
/// program marked to pause after its turn.
pub open spec fn relieved(p: Program, q: Program) -> bool {
    ||| q == p
    ||| p.state is IdleResident && q == suspended_from(p)
    ||| p.state is Running && q == super::rebalance::marked(p)
}

/// The programs `ps` are the programs `ps0` after relief.
pub open spec fn relief_inv(ps0: Programs, ps: Programs) -> bool {
    &&& keys_distinct(ps)
    &&& forall|s: Seq<char>|
        #![trigger prog_get(ps, s)]
        #![trigger prog_get(ps0, s)]
        (prog_get(ps0, s) is None ==> prog_get(ps, s) is None) && (prog_get(ps0, s) is Some ==> prog_get(ps, s) is Some
            && relieved(prog_get(ps0, s)->0, prog_get(ps, s)->0))
}

/// Worker `w` is above the pause threshold of one of the first `n` capacities.
pub open spec fn overloaded(caps: Seq<PressureCapacity>, usage: spec_fn(WorkerWithDpRank) -> usize, n: int, w: WorkerWithDpRank) -> bool {
    exists|k: int| 0 <= k < n && (#[trigger] caps[k]).capacity.worker == w && usage(w) > caps[k].threshold_tokens
}

proof fn lemma_suspend_step(ps0: Programs, ps: Programs, s: Seq<char>)
    requires
        relief_inv(ps0, ps),
    ensures
        relief_inv(ps0, super::model::suspend_idle_program(ps, s)),
        forall|t: Seq<char>| t != s ==> #[trigger] prog_get(super::model::suspend_idle_program(ps, s), t) == prog_get(ps, t),
{
    let r = super::model::suspend_idle_program(ps, s);
    match prog_get(ps, s) {
        Some(q) => {
            match q.state {
                ProgramState::IdleResident { footprint, last_activity } => {
                    let n = Program {
                        state: ProgramState::Suspended { footprint, since: last_activity },
                        assigned_worker: None,
                        step_count: q.step_count,
                    };
                    lemma_prog_set(ps, s, n);
                    let p = prog_get(ps0, s)->0;
                    assert(prog_get(ps0, s) is Some);
                    assert(q == p);
                    assert forall|t: Seq<char>|
                        #![trigger prog_get(r, t)]
                        #![trigger prog_get(ps0, t)]
                        (prog_get(ps0, t) is None ==> prog_get(r, t) is None) && (prog_get(ps0, t) is Some ==> prog_get(
                            r,
                            t,
                        ) is Some && relieved(prog_get(ps0, t)->0, prog_get(r, t)->0)) by {
                        if t != s {
                            assert(prog_get(r, t) == prog_get(ps, t));
                        }
                    }
                },
                _ => {},
            }
        },
        None => {},
    }
}

proof fn lemma_mark_step(ps0: Programs, ps: Programs, s: Seq<char>, q: Program)
    requires
        relief_inv(ps0, ps),
        prog_get(ps, s) == Some(q),
        q.state is Running,
    ensures
        relief_inv(ps0, prog_set(ps, s, super::rebalance::marked(q))),
{
    let r = prog_set(ps, s, super::rebalance::marked(q));
    lemma_prog_set(ps, s, super::rebalance::marked(q));
    let p = prog_get(ps0, s)->0;
    assert(prog_get(ps0, s) is Some);
    assert forall|t: Seq<char>|
        #![trigger prog_get(r, t)]
        #![trigger prog_get(ps0, t)]
        (prog_get(ps0, t) is None ==> prog_get(r, t) is None) && (prog_get(ps0, t) is Some ==> prog_get(r, t) is Some
            && relieved(prog_get(ps0, t)->0, prog_get(r, t)->0)) by {
        if t != s {
            assert(prog_get(r, t) == prog_get(ps, t));
        } else {
            if q != p {
                assert(q == super::rebalance::marked(p));
                assert(super::rebalance::marked(q) == super::rebalance::marked(p));
            }
        }
    }
}

proof fn lemma_pause_idle_relief(
    ps0: Programs,
    v: PolicyView,
    w: WorkerWithDpRank,
    target: usize,
    cands: Seq<(usize, Seq<char>)>,
    usage: spec_fn(WorkerWithDpRank) -> usize,
    n: int,
)
    requires
        relief_inv(ps0, v.programs),
        0 <= n <= cands.len(),
        forall|k: int|
            0 <= k < cands.len() ==> prog_get(ps0, (#[trigger] cands[k]).1) is Some && prog_get(ps0, cands[k].1)->0.assigned_worker
                == Some(w),
    ensures
        ({
            let r = pause_idle(v, w, target, cands, usage, n).0;
            &&& relief_inv(ps0, r.programs)
            &&& r.requests == v.requests && r.sessions == v.sessions
            &&& forall|s: Seq<char>|
                #[trigger] prog_get(r.programs, s) != prog_get(v.programs, s) ==> prog_get(ps0, s) is Some && prog_get(
                    ps0,
                    s,
                )->0.assigned_worker == Some(w)
        }),
    decreases n,
{
    if n > 0 {
        lemma_pause_idle_relief(ps0, v, w, target, cands, usage, n - 1);
        let (v1, u1, c1) = pause_idle(v, w, target, cands, usage, n - 1);
        let s = cands[n - 1].1;
        if u1(w) > target {
            if prog_get(v1.programs, s) is Some {
                lemma_suspend_step(ps0, v1.programs, s);
                let r = pause_idle(v, w, target, cands, usage, n).0;
                assert forall|t: Seq<char>|
                    #[trigger] prog_get(r.programs, t) != prog_get(v.programs, t) implies prog_get(ps0, t) is Some
                        && prog_get(ps0, t)->0.assigned_worker == Some(w) by {
                    if t != s {
                        assert(prog_get(r.programs, t) == prog_get(v1.programs, t));
                    } else {
                        assert(prog_get(ps0, cands[n - 1].1) is Some);
                    }
                }
            }
        }
    }
}

proof fn lemma_mark_running_relief(
    ps0: Programs,
    v: PolicyView,
    target: usize,
    cands: Seq<(usize, Seq<char>)>,
    projected: usize,
    w: WorkerWithDpRank,
    n: int,
)
    requires
        relief_inv(ps0, v.programs),
        0 <= n <= cands.len(),
        forall|k: int|
            0 <= k < cands.len() ==> prog_get(ps0, (#[trigger] cands[k]).1) is Some && prog_get(ps0, cands[k].1)->0.assigned_worker
                == Some(w),
    ensures
        ({
            let r = mark_running(v, target, cands, projected, n).0;
            &&& relief_inv(ps0, r.programs)
            &&& r.requests == v.requests && r.sessions == v.sessions
            &&& forall|s: Seq<char>|
                #[trigger] prog_get(r.programs, s) != prog_get(v.programs, s) ==> prog_get(ps0, s) is Some && prog_get(
                    ps0,
                    s,
                )->0.assigned_worker == Some(w)
        }),
    decreases n,
{
    if n > 0 {
        lemma_mark_running_relief(ps0, v, target, cands, projected, w, n - 1);
        let (v1, pr, c1) = mark_running(v, target, cands, projected, n - 1);
        let s = cands[n - 1].1;
        if pr > target {
            match prog_get(v1.programs, s) {
                Some(q) => {
                    if q.state is Running {
                        lemma_mark_step(ps0, v1.programs, s, q);
                        lemma_prog_set(v1.programs, s, super::rebalance::marked(q));
                        let r = mark_running(v, target, cands, projected, n).0;
                        assert forall|t: Seq<char>|
                            #[trigger] prog_get(r.programs, t) != prog_get(v.programs, t) implies prog_get(ps0, t) is Some
                                && prog_get(ps0, t)->0.assigned_worker == Some(w) by {
                            if t != s {
                                assert(prog_get(r.programs, t) == prog_get(v1.programs, t));
                            } else {
                                assert(prog_get(ps0, cands[n - 1].1) is Some);
                            }
                        }
                    }
                },
                None => {},
            }
        }
    }
}

proof fn lemma_relieve_all_relief(
    v: PolicyView,
    caps: Seq<PressureCapacity>,
    usage: spec_fn(WorkerWithDpRank) -> usize,
    n: int,
)
    requires
        keys_distinct(v.programs),
        v.programs.len() <= usize::MAX,
        0 <= n <= caps.len(),
    ensures
        ({
            let (r, u, p, m) = relieve_all(v, v.programs, caps, usage, n);
            &&& relief_inv(v.programs, r.programs)
            &&& forall|y: WorkerWithDpRank| #[trigger] u(y) <= usage(y)
            &&& forall|s: Seq<char>|
                #[trigger] prog_get(r.programs, s) != prog_get(v.programs, s) ==> prog_get(v.programs, s) is Some
                    && prog_get(v.programs, s)->0.assigned_worker is Some && overloaded(
                    caps,
                    usage,
                    n,
                    prog_get(v.programs, s)->0.assigned_worker->0,
                )
        }),
    decreases n,
{
    let ps0 = v.programs;
    if n == 0 {
        assert forall|s: Seq<char>|
            #![trigger prog_get(ps0, s)]
            (prog_get(ps0, s) is None ==> prog_get(ps0, s) is None) && (prog_get(ps0, s) is Some ==> prog_get(ps0, s) is Some
                && relieved(prog_get(ps0, s)->0, prog_get(ps0, s)->0)) by {}
    } else {
        lemma_relieve_all_relief(v, caps, usage, n - 1);
        let (v1, u1, p1, m1) = relieve_all(v, ps0, caps, usage, n - 1);
        let cap = caps[n - 1];
        let w = cap.capacity.worker;
        let (v2, u2, p2, m2) = relieve(v1, ps0, cap, u1);
        if u1(w) > cap.threshold_tokens {
            let idle = super::rebalance::candidates(ps0, w, true);
            law_relief_candidates_smallest_first(ps0, w, true);
            lemma_pause_idle_relief(ps0, v1, w, cap.target_tokens, idle, u1, idle.len() as int);
            law_pausing_only_lowers_its_worker(v1, w, cap.target_tokens, idle, u1, idle.len() as int);
            let (va, ua, pa) = pause_idle(v1, w, cap.target_tokens, idle, u1, idle.len() as int);
            let running = super::rebalance::candidates(ps0, w, false);
            law_relief_candidates_smallest_first(ps0, w, false);
            let projected = super::usage::sat_sub(ua(w), super::rebalance::marked_tokens(ps0, w, ps0.len() as int));
            lemma_mark_running_relief(ps0, va, cap.target_tokens, running, projected, w, running.len() as int);
            assert(usage(w) > cap.threshold_tokens);
            assert forall|s: Seq<char>|
                #[trigger] prog_get(v2.programs, s) != prog_get(ps0, s) implies prog_get(ps0, s) is Some
                    && prog_get(ps0, s)->0.assigned_worker is Some && overloaded(
                    caps,
                    usage,
                    n,
                    prog_get(ps0, s)->0.assigned_worker->0,
                ) by {
                if prog_get(v1.programs, s) != prog_get(ps0, s) {
                    let k = choose|k: int|
                        0 <= k < n - 1 && (#[trigger] caps[k]).capacity.worker == prog_get(ps0, s)->0.assigned_worker->0
                            && usage(prog_get(ps0, s)->0.assigned_worker->0) > caps[k].threshold_tokens;
                    assert(overloaded(caps, usage, n, prog_get(ps0, s)->0.assigned_worker->0));
                } else {
                    assert(caps[n - 1].capacity.worker == w);
                    assert(overloaded(caps, usage, n, w));
                }
            }
        } else {
            assert forall|s: Seq<char>|
                #[trigger] prog_get(v2.programs, s) != prog_get(ps0, s) implies prog_get(ps0, s) is Some
                    && prog_get(ps0, s)->0.assigned_worker is Some && overloaded(
                    caps,
                    usage,
                    n,
                    prog_get(ps0, s)->0.assigned_worker->0,
                ) by {
                let k = choose|k: int|
                    0 <= k < n - 1 && (#[trigger] caps[k]).capacity.worker == prog_get(ps0, s)->0.assigned_worker->0
                        && usage(prog_get(ps0, s)->0.assigned_worker->0) > caps[k].threshold_tokens;
            }
        }
    }
}

/// Pausing under pressure (`pause_until_safe`) only pauses idle programs and
/// marks running ones, and only on workers above their pause threshold: every
/// program is afterwards unchanged, paused (if it was idle and resident, then
/// without a sticky worker), or marked to pause after its turn (if it was
/// running); a running program is never paused; no program appears or
/// disappears; and a program changes only if its sticky worker was above the
/// pause threshold of its capacity. Within a worker, idle programs are
/// considered smallest footprint first (see
/// [`law_relief_candidates_smallest_first`]), and pausing stops once the
/// worker is at its target (see [`law_pausing_only_lowers_its_worker`]).
pub proof fn law_pausing_touches_only_overloaded_workers(
    v: PolicyView,
    caps: Seq<PressureCapacity>,
    usage: spec_fn(WorkerWithDpRank) -> usize,
)
    requires
        keys_distinct(v.programs),
        v.programs.len() <= usize::MAX,
    ensures
        ({
            let r = relieve_all(v, v.programs, caps, usage, caps.len() as int).0;
            &&& forall|s: Seq<char>| prog_get(v.programs, s) is None ==> #[trigger] prog_get(r.programs, s) is None
            &&& forall|s: Seq<char>|
                prog_get(v.programs, s) is Some ==> #[trigger] prog_get(r.programs, s) is Some && relieved(
                    prog_get(v.programs, s)->0,
                    prog_get(r.programs, s)->0,
                )
            &&& forall|s: Seq<char>|
                (prog_get(v.programs, s) is Some && prog_get(v.programs, s)->0.state is Running) ==> (
                #[trigger] prog_get(r.programs, s))->0.state is Running
            &&& forall|s: Seq<char>|
                #[trigger] prog_get(r.programs, s) != prog_get(v.programs, s) ==> prog_get(v.programs, s) is Some
                    && prog_get(v.programs, s)->0.assigned_worker is Some && overloaded(
                    caps,
                    usage,
                    caps.len() as int,
                    prog_get(v.programs, s)->0.assigned_worker->0,
                )
        }),
{
    lemma_relieve_all_relief(v, caps, usage, caps.len() as int);
}


// ---------------------------------------------------------------------------
// Greedy resume

proof fn lemma_first_slot(
    v: PolicyView,
    dl: Seq<(AdmissionId, WorkerEligibilitySnapshot)>,
    s: Seq<char>,
    required: usize,
    busy: bool,
    l: Seq<(WorkerWithDpRank, usize)>,
    dev: spec_fn(WorkerWithDpRank) -> Option<usize>,
    i: int,
)
    requires
        0 <= i,
    ensures
        super::rebalance::first_slot_from(v, dl, s, required, busy, l, dev, i) matches Some(pos) ==> 0 <= pos < l.len()
            && super::rebalance::allows_worker(v, dl, s, l[pos].0),
    decreases l.len() - i,
{
    if i < l.len() && !super::rebalance::fits_slot(v, dl, s, required, busy, l[i], dev) {
        lemma_first_slot(v, dl, s, required, busy, l, dev, i + 1);
    }
}

proof fn lemma_select_allowed(
    v: PolicyView,
    dl: Seq<(AdmissionId, WorkerEligibilitySnapshot)>,
    order: Seq<Seq<char>>,
    slots: Seq<(WorkerWithDpRank, usize)>,
    dev: spec_fn(WorkerWithDpRank) -> Option<usize>,
    n: int,
)
    ensures
        super::rebalance::select(v, dl, order, slots, dev, n).2.len() <= if n < 0 {
            0
        } else {
            n
        },
        forall|k: int|
            0 <= k < super::rebalance::select(v, dl, order, slots, dev, n).2.len() ==> super::rebalance::allows_worker(
                v,
                dl,
                (#[trigger] super::rebalance::select(v, dl, order, slots, dev, n).2[k]).session,
                super::rebalance::select(v, dl, order, slots, dev, n).2[k].worker,
            ),
    decreases n,
{
    if n > 0 {
        lemma_select_allowed(v, dl, order, slots, dev, n - 1);
        let (l, d, picks) = super::rebalance::select(v, dl, order, slots, dev, n - 1);
        let s = order[n - 1];
        lemma_first_slot(
            v,
            dl,
            s,
            super::rebalance::required_of(v.programs, s),
            super::rebalance::has_current(v.sessions, s),
            l,
            d,
            0,
        );
    }
}

proof fn lemma_repack_allowed(
    v: PolicyView,
    dl: Seq<(AdmissionId, WorkerEligibilitySnapshot)>,
    picks: Seq<Pick>,
    slots: Seq<(WorkerWithDpRank, usize)>,
    dev: spec_fn(WorkerWithDpRank) -> Option<usize>,
    n: int,
)
    requires
        0 <= n <= picks.len(),
    ensures
        super::rebalance::repack(v, dl, picks, slots, dev, n) matches Some((l, d, ws)) ==> ws.len() == n && forall|k: int|
            0 <= k < n ==> super::rebalance::allows_worker(v, dl, picks[k].session, #[trigger] ws[k]),
    decreases n,
{
    if n > 0 {
        lemma_repack_allowed(v, dl, picks, slots, dev, n - 1);
        match super::rebalance::repack(v, dl, picks, slots, dev, n - 1) {
            Some((l, d, ws)) => {
                let p = picks[n - 1];
                lemma_first_slot(v, dl, p.session, p.required, p.busy, l, d, 0);
            },
            None => {},
        }
    }
}

proof fn lemma_suspended_keys_len(ps: Programs, n: int)
    requires
        0 <= n <= ps.len(),
    ensures
        super::rebalance::suspended_keys_upto(ps, n).len() <= n,
    decreases n,
{
    if n > 0 {
        lemma_suspended_keys_len(ps, n - 1);
    }
}

/// The picks of greedy resume, each with the worker it is resumed on.
proof fn lemma_greedy_workers(
    v: PolicyView,
    caps: Seq<PressureCapacity>,
    dl: Seq<(AdmissionId, WorkerEligibilitySnapshot)>,
    usage: spec_fn(WorkerWithDpRank) -> usize,
    running: spec_fn(WorkerWithDpRank) -> usize,
) -> (r: (Seq<Pick>, Seq<WorkerWithDpRank>))
    requires
        v.programs.len() <= usize::MAX,
    ensures
        r.0.len() == r.1.len(),
        forall|k: int| 0 <= k < r.0.len() ==> super::rebalance::allows_worker(v, dl, r.0[k].session, #[trigger] r.1[k]),
        ({
            let keys = super::rebalance::suspended_keys(v.programs);
            let slots = super::rebalance::slot_sort(super::rebalance::slots_upto(caps, usage, caps.len() as int));
            keys.len() != 0 && slots.len() != 0 ==> greedy(v, caps, dl, usage, running) == apply_picks(
                v,
                r.0,
                r.1,
                usage,
                running,
                r.0.len() as int,
            )
        }),
{
    let keys = super::rebalance::suspended_keys(v.programs);
    let slots = super::rebalance::slot_sort(super::rebalance::slots_upto(caps, usage, caps.len() as int));
    let dev = super::rebalance::device_table(caps, running);
    let order = super::rebalance::paused_order(v, dl, keys, slots, dev);
    let sel = super::rebalance::select(v, dl, order, slots, dev, order.len() as int).2;
    let picks = super::rebalance::pick_sort(sel);
    let ws = super::rebalance::final_workers(v, dl, picks, slots, dev);
    lemma_suspended_keys_len(v.programs, v.programs.len() as int);
    let ok = Seq::new(keys.len(), |i: int| (super::rebalance::paused_key(v, dl, keys[i], slots, dev), i as usize));
    super::keysort::lemma_sorted_len(ok, ok.len() as int);
    assert(order.len() == keys.len());
    lemma_select_allowed(v, dl, order, slots, dev, order.len() as int);
    let sk = Seq::new(sel.len(), |i: int| (super::rebalance::pick_key(sel[i]), i as usize));
    super::keysort::lemma_sorted_len(sk, sk.len() as int);
    super::keysort::lemma_sorted_members(sk, sk.len() as int);
    let sr = super::keysort::key_sorted(sk);
    assert(sr == super::keysort::key_sorted_upto(sk, sk.len() as int));
    assert forall|j: int| 0 <= j < picks.len() implies super::rebalance::allows_worker(
        v,
        dl,
        (#[trigger] picks[j]).session,
        picks[j].worker,
    ) by {
        assert(super::keysort::key_sorted_upto(sk, sk.len() as int)[j] == sr[j]);
        let i = choose|i: int| 0 <= i < sk.len() && super::keysort::key_sorted_upto(sk, sk.len() as int)[j] == sk[i];
        assert(sk[i].1 as int == i);
        assert(picks[j] == sel[i]);
    }
    lemma_repack_allowed(v, dl, picks, slots, dev, picks.len() as int);
    assert forall|k: int| 0 <= k < picks.len() implies super::rebalance::allows_worker(v, dl, picks[k].session, #[trigger] ws[k]) by {
        match super::rebalance::repack(v, dl, picks, slots, dev, picks.len() as int) {
            Some((_, _, w2)) => {},
            None => {
                assert(ws[k] == picks[k].worker);
            },
        }
    }
    (picks, ws)
}

proof fn lemma_apply_picks_resumes(
    v: PolicyView,
    picks: Seq<Pick>,
    ws: Seq<WorkerWithDpRank>,
    usage: spec_fn(WorkerWithDpRank) -> usize,
    running: spec_fn(WorkerWithDpRank) -> usize,
    n: int,
)
    requires
        keys_distinct(v.programs),
        0 <= n <= picks.len(),
        n <= ws.len(),
    ensures
        ({
            let r = apply_picks(v, picks, ws, usage, running, n).0;
            &&& keys_distinct(r.programs)
            &&& forall|s: Seq<char>|
                #[trigger] prog_get(r.programs, s) != prog_get(v.programs, s) ==> {
                    &&& prog_get(v.programs, s) is Some
                    &&& super::program::is_suspended(prog_get(v.programs, s)->0)
                    &&& prog_get(r.programs, s) is Some
                    &&& !super::program::is_suspended(prog_get(r.programs, s)->0)
                    &&& exists|k: int|
                        0 <= k < n && picks[k].session == s && prog_get(r.programs, s)->0.assigned_worker == Some(
                            #[trigger] ws[k],
                        )
                }
        }),
    decreases n,
{
    if n > 0 {
        lemma_apply_picks_resumes(v, picks, ws, usage, running, n - 1);
        let v1 = apply_picks(v, picks, ws, usage, running, n - 1).0;
        let s1 = picks[n - 1].session;
        let w1 = ws[n - 1];
        let r = apply_picks(v, picks, ws, usage, running, n).0;
        assert(r == resume(v1, s1, Some(w1)).0);
        let cur = current_of(v1.sessions, s1);
        if !(cur is Some && !v1.requests.contains_key(cur->0)) {
            match prog_get(v1.programs, s1) {
                Some(p) => {
                    if p.state is Suspended {
                        let state = match cur {
                            Some(id) => ProgramState::Running {
                                context_tokens: v1.requests[id].context_tokens,
                                pause_after_completion: false,
                            },
                            None => match p.state {
                                ProgramState::Suspended { footprint, since } => ProgramState::IdleResident {
                                    footprint,
                                    last_activity: since,
                                },
                                _ => p.state,
                            },
                        };
                        let np = Program { state, assigned_worker: Some(w1), step_count: p.step_count };
                        assert(r.programs == prog_set(v1.programs, s1, np));
                        lemma_prog_set(v1.programs, s1, np);
                        assert forall|t: Seq<char>|
                            #[trigger] prog_get(r.programs, t) != prog_get(v.programs, t) implies {
                                &&& prog_get(v.programs, t) is Some
                                &&& super::program::is_suspended(prog_get(v.programs, t)->0)
                                &&& prog_get(r.programs, t) is Some
                                &&& !super::program::is_suspended(prog_get(r.programs, t)->0)
                                &&& exists|k: int|
                                    0 <= k < n && picks[k].session == t && prog_get(r.programs, t)->0.assigned_worker
                                        == Some(#[trigger] ws[k])
                            } by {
                            if t != s1 {
                                assert(prog_get(r.programs, t) == prog_get(v1.programs, t));
                                if prog_get(v1.programs, t) != prog_get(v.programs, t) {
                                    let k = choose|k: int|
                                        0 <= k < n - 1 && picks[k].session == t && prog_get(v1.programs, t)->0.assigned_worker
                                            == Some(#[trigger] ws[k]);
                                }
                            } else {
                                if prog_get(v1.programs, t) != prog_get(v.programs, t) {
                                    assert(!super::program::is_suspended(p));
                                }
                                assert(ws[n - 1] == w1);
                            }
                        }
                    }
                },
                None => {},
            }
        }
    }
}

/// Greedy resume only resumes paused programs, each on one worker that its
/// session allows: a program it changes was paused, runs or is resident
/// afterwards, and its sticky worker is one its deferred request may use (and
/// not another than its own sticky worker).
pub proof fn law_greedy_resumes_on_allowed_workers(
    v: PolicyView,
    caps: Seq<PressureCapacity>,
    dl: Seq<(AdmissionId, WorkerEligibilitySnapshot)>,
    usage: spec_fn(WorkerWithDpRank) -> usize,
    running: spec_fn(WorkerWithDpRank) -> usize,
)
    requires
        keys_distinct(v.programs),
        v.programs.len() <= usize::MAX,
    ensures
        ({
            let r = greedy(v, caps, dl, usage, running).0;
            forall|s: Seq<char>|
                #[trigger] prog_get(r.programs, s) != prog_get(v.programs, s) ==> {
                    &&& prog_get(v.programs, s) is Some
                    &&& super::program::is_suspended(prog_get(v.programs, s)->0)
                    &&& prog_get(r.programs, s) is Some
                    &&& !super::program::is_suspended(prog_get(r.programs, s)->0)
                    &&& prog_get(r.programs, s)->0.assigned_worker is Some
                    &&& super::rebalance::allows_worker(v, dl, s, prog_get(r.programs, s)->0.assigned_worker->0)
                }
        }),
{
    let keys = super::rebalance::suspended_keys(v.programs);
    let slots = super::rebalance::slot_sort(super::rebalance::slots_upto(caps, usage, caps.len() as int));
    if keys.len() != 0 && slots.len() != 0 {
        let (picks, ws) = lemma_greedy_workers(v, caps, dl, usage, running);
        lemma_apply_picks_resumes(v, picks, ws, usage, running, picks.len() as int);
        let r = greedy(v, caps, dl, usage, running).0;
        assert forall|s: Seq<char>|
            #[trigger] prog_get(r.programs, s) != prog_get(v.programs, s) implies {
                &&& prog_get(v.programs, s) is Some
                &&& super::program::is_suspended(prog_get(v.programs, s)->0)
                &&& prog_get(r.programs, s) is Some
                &&& !super::program::is_suspended(prog_get(r.programs, s)->0)
                &&& prog_get(r.programs, s)->0.assigned_worker is Some
                &&& super::rebalance::allows_worker(v, dl, s, prog_get(r.programs, s)->0.assigned_worker->0)
            } by {
            let k = choose|k: int|
                0 <= k < picks.len() && picks[k].session == s && prog_get(r.programs, s)->0.assigned_worker == Some(
                    #[trigger] ws[k],
                );
            assert(super::rebalance::allows_worker(v, dl, picks[k].session, ws[k]));
        }
    }
}


// ---------------------------------------------------------------------------
// Waiting queues

/// Each request waiting on session `s` is known, belongs to `s`, and is not
/// the request `s` serves.
pub open spec fn queue_owned(v: PolicyView, s: Seq<char>) -> bool {
    forall|k: int|
        #![trigger v.sessions[s].waiting[k]]
        0 <= k < v.sessions[s].waiting.len() ==> {
            &&& v.requests.contains_key(v.sessions[s].waiting[k])
            &&& v.requests[v.sessions[s].waiting[k]].session == s
            &&& v.sessions[s].current != Some(v.sessions[s].waiting[k])
        }
}

/// Every waiting queue has an owner: its requests are known and belong to
/// the session they wait on, and a session that serves no request has none
/// waiting.
pub open spec fn queues_owned(v: PolicyView) -> bool {
    forall|s: Seq<char>|
        #[trigger] v.sessions.contains_key(s) ==> queue_owned(v, s) && (v.sessions[s].current is None
            ==> v.sessions[s].waiting.len() == 0)
}

/// Queues stay owned when request `id` of session `s`, which serves nothing,
/// begins there.
proof fn lemma_begin_owned(
    v: PolicyView,
    id: u64,
    s: Seq<char>,
    now: u64,
    caps: Seq<WorkerCapacity>,
    elig: WorkerEligibilitySnapshot,
)
    requires
        v.requests.contains_key(id),
        v.requests[id].session == s,
        current_of(v.sessions, s) is None,
        !waiting_of(v.sessions, s).contains(id),
        v.sessions.contains_key(s) ==> queue_owned(v, s),
        forall|t: Seq<char>|
            #[trigger] v.sessions.contains_key(t) && t != s ==> queue_owned(v, t) && (v.sessions[t].current is None
                ==> v.sessions[t].waiting.len() == 0),
    ensures
        queues_owned(super::model::begin_request(v, id, s, now, caps, elig).0),
{
    let r = super::model::begin_request(v, id, s, now, caps, elig).0;
    assert(r.sessions == super::sessions::with_current(v.sessions, s, Some(id)));
    assert(r.requests.dom() == v.requests.dom());
    assert(r.requests[id].session == s);
    assert forall|x: u64| #[trigger] r.requests.contains_key(x) && x != id implies r.requests[x] == v.requests[x] by {}
    assert forall|t: Seq<char>| #[trigger] r.sessions.contains_key(t) implies queue_owned(r, t) && (
    r.sessions[t].current is None ==> r.sessions[t].waiting.len() == 0) by {
        if t == s {
            assert forall|k: int| 0 <= k < r.sessions[t].waiting.len() implies {
                &&& r.requests.contains_key(r.sessions[t].waiting[k])
                &&& r.requests[r.sessions[t].waiting[k]].session == t
                &&& r.sessions[t].current != Some(r.sessions[t].waiting[k])
            } by {
                let x = r.sessions[t].waiting[k];
                assert(x == v.sessions[s].waiting[k]);
                assert(waiting_of(v.sessions, s).contains(x));
            }
        } else {
            assert(r.sessions[t] == v.sessions[t]);
            assert forall|k: int| 0 <= k < r.sessions[t].waiting.len() implies {
                &&& r.requests.contains_key(r.sessions[t].waiting[k])
                &&& r.requests[r.sessions[t].waiting[k]].session == t
                &&& r.sessions[t].current != Some(r.sessions[t].waiting[k])
            } by {
                let x = r.sessions[t].waiting[k];
                assert(v.sessions[t].waiting[k] == x);
                assert(v.requests[x].session == t);
            }
        }
    }
}

/// Offering a new request keeps every waiting queue owned: a request that
/// is neither known nor the one its session serves either waits last on its
/// busy session or begins on its free one.
pub proof fn law_offer_keeps_queues_owned(
    v: PolicyView,
    id: u64,
    session: Option<Seq<char>>,
    session_final: bool,
    ctx: usize,
    now: u64,
    caps: Seq<WorkerCapacity>,
    elig: WorkerEligibilitySnapshot,
)
    requires
        queues_owned(v),
        !v.requests.contains_key(id),
        session matches Some(s) ==> current_of(v.sessions, s) != Some(id),
    ensures
        queues_owned(offer(v, id, session, session_final, ctx, now, caps, elig).0),
{
    if let Some(s) = session {
        let v1 = PolicyView {
            requests: v.requests.insert(
                id,
                super::model::RequestView { session: s, session_final, context_tokens: ctx, prior: None },
            ),
            ..v
        };
        let w = waiting_of(v.sessions, s);
        assert(!w.contains(id)) by {
            if w.contains(id) {
                let k = choose|k: int| 0 <= k < w.len() && w[k] == id;
                assert(v.sessions[s].waiting[k] == id);
            }
        }
        assert forall|t: Seq<char>| #[trigger] v.sessions.contains_key(t) implies queue_owned(v1, t) by {
            assert forall|k: int| 0 <= k < v1.sessions[t].waiting.len() implies {
                &&& v1.requests.contains_key(v1.sessions[t].waiting[k])
                &&& v1.requests[v1.sessions[t].waiting[k]].session == t
                &&& v1.sessions[t].current != Some(v1.sessions[t].waiting[k])
            } by {
                let x = v.sessions[t].waiting[k];
                assert(v.requests.contains_key(x));
            }
        }
        if current_of(v.sessions, s) is Some {
            let r = offer(v, id, session, session_final, ctx, now, caps, elig).0;
            let w2 = r.sessions[s].waiting;
            assert(w2 == w.push(id));
            assert forall|t: Seq<char>| #[trigger] r.sessions.contains_key(t) implies queue_owned(r, t) && (
            r.sessions[t].current is None ==> r.sessions[t].waiting.len() == 0) by {
                if t == s {
                    assert forall|k: int| 0 <= k < r.sessions[t].waiting.len() implies {
                        &&& r.requests.contains_key(r.sessions[t].waiting[k])
                        &&& r.requests[r.sessions[t].waiting[k]].session == t
                        &&& r.sessions[t].current != Some(r.sessions[t].waiting[k])
                    } by {
                        if k < w.len() {
                            assert(r.sessions[t].waiting[k] == v.sessions[s].waiting[k]);
                        }
                    }
                } else {
                    assert(r.sessions[t] == v1.sessions[t]);
                }
            }
        } else {
            lemma_begin_owned(v1, id, s, now, caps, elig);
        }
    }
}

/// Finishing a request keeps every waiting queue owned: a waiting request
/// leaves its queue, and a session that stops serving either begins its next
/// waiting request or is forgotten.
pub proof fn law_finish_keeps_queues_owned(
    v: PolicyView,
    id: u64,
    completed: Option<usize>,
    now: u64,
    caps: Seq<WorkerCapacity>,
    elig: WorkerEligibilitySnapshot,
)
    requires
        sessions_wf(v.sessions),
        queues_owned(v),
    ensures
        queues_owned(finish(v, id, completed, now, caps, elig).0),
{
    if v.requests.contains_key(id) {
        let req = v.requests[id];
        let s = req.session;
        let w = waiting_of(v.sessions, s);
        let v1 = PolicyView { requests: v.requests.remove(id), ..v };
        // `id` waits nowhere but possibly on its own session.
        assert forall|t: Seq<char>, k: int|
            v.sessions.contains_key(t) && t != s && 0 <= k < v.sessions[t].waiting.len() implies #[trigger] v.sessions[t].waiting[k]
            != id by {
            assert(v.requests[v.sessions[t].waiting[k]].session == t);
        }
        if current_of(v.sessions, s) != Some(id) {
            let r = finish(v, id, completed, now, caps, elig).0;
            if v.sessions.contains_key(s) && w.contains(id) {
                let j = id_index(w, id);
                assert(0 <= j < w.len() && w[j] == id);
                let w2 = w.remove(j);
                assert(r.sessions[s].waiting == w2);
                assert forall|t: Seq<char>| #[trigger] r.sessions.contains_key(t) implies queue_owned(r, t) && (
                r.sessions[t].current is None ==> r.sessions[t].waiting.len() == 0) by {
                    if t == s {
                        assert(v.sessions[s].current is Some);
                        assert forall|k: int| 0 <= k < r.sessions[t].waiting.len() implies {
                            &&& r.requests.contains_key(r.sessions[t].waiting[k])
                            &&& r.requests[r.sessions[t].waiting[k]].session == t
                            &&& r.sessions[t].current != Some(r.sessions[t].waiting[k])
                        } by {
                            let m = if k < j { k } else { k + 1 };
                            assert(w2[k] == w[m]);
                            assert(v.sessions[s].waiting[m] == w[m]);
                            assert(w[m] != id);
                        }
                    } else {
                        assert(r.sessions[t] == v.sessions[t]);
                        assert forall|k: int| 0 <= k < r.sessions[t].waiting.len() implies {
                            &&& r.requests.contains_key(r.sessions[t].waiting[k])
                            &&& r.requests[r.sessions[t].waiting[k]].session == t
                            &&& r.sessions[t].current != Some(r.sessions[t].waiting[k])
                        } by {
                            assert(v.sessions[t].waiting[k] != id);
                        }
                    }
                }
            } else {
                assert forall|t: Seq<char>| #[trigger] r.sessions.contains_key(t) implies queue_owned(r, t) && (
                r.sessions[t].current is None ==> r.sessions[t].waiting.len() == 0) by {
                    assert forall|k: int| 0 <= k < r.sessions[t].waiting.len() implies {
                        &&& r.requests.contains_key(r.sessions[t].waiting[k])
                        &&& r.requests[r.sessions[t].waiting[k]].session == t
                        &&& r.sessions[t].current != Some(r.sessions[t].waiting[k])
                    } by {
                        if t == s {
                            assert(w[k] == v.sessions[t].waiting[k]);
                            assert(w.contains(w[k]));
                        } else {
                            assert(v.sessions[t].waiting[k] != id);
                        }
                    }
                }
            }
        } else {
            assert(v.sessions.contains_key(s));
            assert forall|k: int| 0 <= k < w.len() implies #[trigger] w[k] != id by {
                assert(v.sessions[s].waiting[k] == w[k]);
            }
            let v2 = PolicyView {
                sessions: v.sessions.insert(s, SessionView { current: None, waiting: w }),
                ..v1
            };
            let ps = if req.session_final {
                prog_del(v2.programs, s)
            } else {
                match completed {
                    None => match req.prior {
                        Some(p) => prog_set(v2.programs, s, p),
                        None => prog_del(v2.programs, s),
                    },
                    Some(ctx) => match prog_get(v2.programs, s) {
                        None => v2.programs,
                        Some(p) => {
                            let idle = prog_set(
                                v2.programs,
                                s,
                                Program {
                                    state: ProgramState::IdleResident { footprint: ctx, last_activity: now },
                                    ..p
                                },
                            );
                            if is_marked(p) {
                                super::model::suspend_idle_program(idle, s)
                            } else {
                                idle
                            }
                        },
                    },
                }
            };
            let v3 = PolicyView { programs: ps, ..v2 };
            assert(finish(v, id, completed, now, caps, elig) == super::model::promote_next(v3, s, now, caps, elig));
            if w.len() > 0 {
                let nid = w[0];
                let v4 = PolicyView {
                    sessions: v3.sessions.insert(s, SessionView { current: None, waiting: w.drop_first() }),
                    ..v3
                };
                assert(v.sessions[s].waiting[0] == nid);
                assert(!w.drop_first().contains(nid)) by {
                    if w.drop_first().contains(nid) {
                        let k = choose|k: int| 0 <= k < w.drop_first().len() && w.drop_first()[k] == nid;
                        assert(w[k + 1] == w[0]);
                    }
                }
                assert forall|k: int| 0 <= k < v4.sessions[s].waiting.len() implies {
                    &&& v4.requests.contains_key(v4.sessions[s].waiting[k])
                    &&& v4.requests[v4.sessions[s].waiting[k]].session == s
                    &&& v4.sessions[s].current != Some(v4.sessions[s].waiting[k])
                } by {
                    assert(v4.sessions[s].waiting[k] == w[k + 1]);
                    assert(v.sessions[s].waiting[k + 1] == w[k + 1]);
                }
                assert(queue_owned(v4, s));
                assert forall|t: Seq<char>| #[trigger] v4.sessions.contains_key(t) && t != s implies queue_owned(v4, t)
                    && (v4.sessions[t].current is None ==> v4.sessions[t].waiting.len() == 0) by {
                    assert(v4.sessions[t] == v.sessions[t]);
                    assert forall|k: int| 0 <= k < v4.sessions[t].waiting.len() implies {
                        &&& v4.requests.contains_key(v4.sessions[t].waiting[k])
                        &&& v4.requests[v4.sessions[t].waiting[k]].session == t
                        &&& v4.sessions[t].current != Some(v4.sessions[t].waiting[k])
                    } by {
                        assert(v.sessions[t].waiting[k] != id);
                    }
                }
                lemma_begin_owned(v4, nid, s, now, caps, elig);
            } else {
                let r = finish(v, id, completed, now, caps, elig).0;
                assert(r.sessions == v3.sessions.remove(s));
                assert forall|t: Seq<char>| #[trigger] r.sessions.contains_key(t) implies queue_owned(r, t) && (
                r.sessions[t].current is None ==> r.sessions[t].waiting.len() == 0) by {
                    assert(r.sessions[t] == v.sessions[t]);
                    assert forall|k: int| 0 <= k < r.sessions[t].waiting.len() implies {
                        &&& r.requests.contains_key(r.sessions[t].waiting[k])
                        &&& r.requests[r.sessions[t].waiting[k]].session == t
                        &&& r.sessions[t].current != Some(r.sessions[t].waiting[k])
                    } by {
                        assert(v.sessions[t].waiting[k] != id);
                    }
                }
            }
        }
    }
}

/// Reporting progress and dispatching a request keep every waiting queue
/// owned, and so do the operations that change only programs (see
/// [`programs_only`]).
pub proof fn law_progress_and_dispatch_keep_queues_owned(
    v: PolicyView,
    id: u64,
    tokens: usize,
    worker: WorkerWithDpRank,
    w: PolicyView,
)
    requires
        queues_owned(v),
    ensures
        queues_owned(super::model::progressed(v, id, tokens)),
        queues_owned(super::model::dispatched(v, id, worker)),
        programs_only(v, w) ==> queues_owned(w),
{
    let r = super::model::progressed(v, id, tokens);
    assert forall|t: Seq<char>| #[trigger] r.sessions.contains_key(t) implies queue_owned(r, t) && (
    r.sessions[t].current is None ==> r.sessions[t].waiting.len() == 0) by {
        assert(r.sessions[t] == v.sessions[t]);
        assert forall|k: int| 0 <= k < r.sessions[t].waiting.len() implies {
            &&& r.requests.contains_key(r.sessions[t].waiting[k])
            &&& r.requests[r.sessions[t].waiting[k]].session == t
            &&& r.sessions[t].current != Some(r.sessions[t].waiting[k])
        } by {
            assert(v.sessions[t].waiting[k] == r.sessions[t].waiting[k]);
        }
    }
    let d = super::model::dispatched(v, id, worker);
    assert forall|t: Seq<char>| #[trigger] d.sessions.contains_key(t) implies queue_owned(d, t) && (
    d.sessions[t].current is None ==> d.sessions[t].waiting.len() == 0) by {
        assert(d.sessions[t] == v.sessions[t]);
    }
    if programs_only(v, w) {
        assert forall|t: Seq<char>| #[trigger] w.sessions.contains_key(t) implies queue_owned(w, t) && (
        w.sessions[t].current is None ==> w.sessions[t].waiting.len() == 0) by {
            assert(w.sessions[t] == v.sessions[t]);
        }
    }
}

/// A program marked to pause after its turn is paused as soon as the turn
/// completes, whatever context it reports: with no request waiting on the
/// session, its program is suspended with the reported context as footprint
/// since the completion time, without a sticky worker, at the same step;
/// with requests waiting, it is still not resident afterwards (the next turn
/// waits for a resume, or a final turn releases it).
pub proof fn law_marked_program_pauses_on_completion(
    v: PolicyView,
    id: u64,
    ctx: usize,
    now: u64,
    caps: Seq<WorkerCapacity>,
    elig: WorkerEligibilitySnapshot,
)
    requires
        keys_distinct(v.programs),
        v.requests.contains_key(id),
        !v.requests[id].session_final,
        current_of(v.sessions, v.requests[id].session) == Some(id),
        prog_get(v.programs, v.requests[id].session) is Some,
        prog_get(v.programs, v.requests[id].session)->0.state matches ProgramState::Running {
            pause_after_completion: true,
            ..
        },
    ensures
        ({
            let s = v.requests[id].session;
            let p = prog_get(v.programs, s)->0;
            let r = finish(v, id, Some(ctx), now, caps, elig).0;
            &&& waiting_of(v.sessions, s).len() == 0 ==> prog_get(r.programs, s) == Some(
                Program {
                    state: ProgramState::Suspended { footprint: ctx, since: now },
                    assigned_worker: None,
                    step_count: p.step_count,
                },
            )
            &&& match prog_get(r.programs, s) {
                Some(q) => !(q.state is IdleResident),
                None => true,
            }
        }),
{
    let s = v.requests[id].session;
    let p = prog_get(v.programs, s)->0;
    let idle_p = Program { state: ProgramState::IdleResident { footprint: ctx, last_activity: now }, ..p };
    lemma_prog_set(v.programs, s, idle_p);
    let idle = prog_set(v.programs, s, idle_p);
    let paused = Program {
        state: ProgramState::Suspended { footprint: ctx, since: now },
        assigned_worker: None,
        step_count: p.step_count,
    };
    lemma_prog_set(idle, s, paused);
    let ps = super::model::suspend_idle_program(idle, s);
    assert(ps == prog_set(idle, s, paused));
    assert(prog_get(ps, s) == Some(paused));
    let w = waiting_of(v.sessions, s);
    let v1 = PolicyView { requests: v.requests.remove(id), ..v };
    let v2 = PolicyView {
        sessions: v.sessions.insert(s, SessionView { current: None, waiting: w }),
        ..v1
    };
    let v3 = PolicyView { programs: ps, ..v2 };
    assert(finish(v, id, Some(ctx), now, caps, elig) == super::model::promote_next(v3, s, now, caps, elig));
    if w.len() > 0 {
        let nid = w[0];
        let v4 = PolicyView {
            sessions: v3.sessions.insert(s, SessionView { current: None, waiting: w.drop_first() }),
            ..v3
        };
        assert(finish(v, id, Some(ctx), now, caps, elig).0 == super::model::begin_request(v4, nid, s, now, caps, elig).0);
        if v4.requests.contains_key(nid) {
            if v4.requests[nid].session_final {
                lemma_prog_del(ps, s);
            } else {
                let req = v4.requests[nid];
                let rp = running_program(req.context_tokens, None, super::model::sat_inc(p.step_count));
                lemma_prog_set(ps, s, rp);
                let ps1 = prog_set(ps, s, rp);
                let q = Program {
                    state: ProgramState::Suspended {
                        footprint: super::program::footprint_of(rp),
                        since: now,
                    },
                    assigned_worker: None,
                    step_count: rp.step_count,
                };
                lemma_prog_set(ps1, s, q);
                assert(defer_program(ps1, s, now, true) == prog_set(ps1, s, q));
            }
        }
    }
}

} // verus!
