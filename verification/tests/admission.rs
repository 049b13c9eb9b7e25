use std::collections::HashMap;

use dynamo_serving::admission::capacity::{capacity_snapshot_of, CapacityCache, WorkerConfigData};
use dynamo_serving::admission::policy::SessionAwareAdmissionControl;
use dynamo_serving::admission::program::{Program, ProgramState};
use dynamo_serving::admission::registration::{
    plan_builtin_policies, AdmissionInfo, ClassInfo, RegistrationError,
};
use dynamo_serving::admission::types::{
    AdmissionAction, AdmissionDecision, AdmissionEvent, AdmissionId, AdmissionRequest,
    PolicyTiming, PressureCapacity, WorkerCapacity, WorkerEligibilitySnapshot, WorkerPlacement,
    WorkerWithDpRank,
};

const SEC: u64 = 1_000_000_000;
const START: u64 = 10_000 * SEC;

fn worker(id: u64) -> WorkerWithDpRank {
    WorkerWithDpRank::new(id, 0)
}

fn both_workers() -> WorkerEligibilitySnapshot {
    WorkerEligibilitySnapshot::new(vec![worker(1), worker(2)])
}

fn capacities(values: &[(u64, usize)]) -> Vec<WorkerCapacity> {
    values
        .iter()
        .map(|&(id, tokens)| WorkerCapacity { worker: worker(id), device_tokens: tokens, tokens })
        .collect()
}

fn tiered_capacities(values: &[(u64, usize, usize)]) -> Vec<WorkerCapacity> {
    values
        .iter()
        .map(|&(id, device_tokens, tokens)| WorkerCapacity { worker: worker(id), device_tokens, tokens })
        .collect()
}

fn scale(tokens: usize, factor: f64) -> usize {
    ((tokens as f64) * factor).clamp(0.0, usize::MAX as f64) as usize
}

struct Config {
    pause_threshold: f64,
    pause_target: f64,
    resume_timeout_seconds: u64,
    session_retention_seconds: u64,
}

impl Default for Config {
    fn default() -> Self {
        Config {
            pause_threshold: 0.95,
            pause_target: 0.80,
            resume_timeout_seconds: 1_800,
            session_retention_seconds: 1_800,
        }
    }
}

/// A policy with the clock, capacities and per-request eligibility the
/// router would sample.
struct Harness {
    policy: SessionAwareAdmissionControl,
    now: u64,
    caps: Vec<WorkerCapacity>,
    config: Config,
    elig: HashMap<u64, WorkerEligibilitySnapshot>,
}

impl Harness {
    fn new(caps: Vec<WorkerCapacity>, config: Config) -> Self {
        let timing = PolicyTiming {
            resume_timeout_nanos: config.resume_timeout_seconds * SEC,
            session_retention_nanos: config.session_retention_seconds * SEC,
            scheduler_interval_nanos: 5 * SEC,
        };
        Harness {
            policy: SessionAwareAdmissionControl::new(timing, START),
            now: START,
            caps,
            config,
            elig: HashMap::new(),
        }
    }

    fn pressure(&self) -> Vec<PressureCapacity> {
        self.caps
            .iter()
            .map(|c| PressureCapacity {
                capacity: *c,
                threshold_tokens: scale(c.tokens, self.config.pause_threshold),
                target_tokens: scale(c.tokens, self.config.pause_target),
            })
            .collect()
    }

    fn offer_with(
        &mut self,
        id: u64,
        session: Option<&str>,
        session_final: bool,
        tokens: usize,
        elig: WorkerEligibilitySnapshot,
    ) -> AdmissionDecision {
        let request = AdmissionRequest {
            id: AdmissionId::new(id),
            session_id: session.map(|s| s.to_string()),
            session_final,
            context_tokens: tokens,
        };
        let decision = self.policy.admit_request(&request, self.now, &self.caps, &elig);
        self.elig.insert(id, elig);
        decision
    }

    fn offer(&mut self, id: u64, session: Option<&str>, tokens: usize) -> AdmissionDecision {
        self.offer_with(id, session, false, tokens, both_workers())
    }

    fn offer_final(&mut self, id: u64, session: Option<&str>, tokens: usize) -> AdmissionDecision {
        self.offer_with(id, session, true, tokens, both_workers())
    }

    fn offer_filtered(&mut self, id: u64, session: Option<&str>, tokens: usize, workers: Vec<WorkerWithDpRank>) -> AdmissionDecision {
        self.offer_with(id, session, false, tokens, WorkerEligibilitySnapshot::new(workers))
    }

    fn event(&mut self, event: AdmissionEvent) -> Vec<AdmissionAction> {
        let next = match event {
            AdmissionEvent::Completed { id, .. } | AdmissionEvent::Aborted { id } => self.policy.promotion_candidate(id),
            _ => None,
        };
        let elig = next
            .and_then(|id| self.elig.get(&id.value).cloned())
            .unwrap_or_else(|| WorkerEligibilitySnapshot::new(Vec::new()));
        let list: Vec<(AdmissionId, WorkerEligibilitySnapshot)> = self
            .policy
            .deferred_requests()
            .into_iter()
            .filter_map(|id| self.elig.get(&id.value).map(|e| (id, e.clone())))
            .collect();
        let caps = self.pressure();
        self.policy.on_event(event, self.now, &caps, &elig, &list)
    }

    fn dispatched(&mut self, id: u64, w: u64) {
        self.event(AdmissionEvent::Dispatched { id: AdmissionId::new(id), worker: worker(w) });
    }

    fn completed(&mut self, id: u64, context_tokens: usize) -> Vec<AdmissionAction> {
        self.event(AdmissionEvent::Completed { id: AdmissionId::new(id), context_tokens })
    }

    fn aborted(&mut self, id: u64) -> Vec<AdmissionAction> {
        self.event(AdmissionEvent::Aborted { id: AdmissionId::new(id) })
    }

    /// A reconcile pass at the next tick.
    fn reconcile_now(&mut self) -> Vec<AdmissionAction> {
        if self.now < self.policy.next_tick() {
            self.now = self.policy.next_tick();
        }
        self.event(AdmissionEvent::Reconcile)
    }

    fn program(&self, session: &str) -> Program {
        self.policy.program(session).expect("program must exist")
    }

    fn has_program(&self, session: &str) -> bool {
        self.policy.program(session).is_some()
    }
}

fn idle_program(assigned_worker: Option<WorkerWithDpRank>, footprint: usize, last_activity: u64, step_count: usize) -> Program {
    Program::idle_resident(assigned_worker, footprint, last_activity, step_count)
}

fn suspended_program(footprint: usize, since: u64, step_count: usize) -> Program {
    Program::suspended(footprint, since, step_count)
}

fn running_program(assigned_worker: Option<WorkerWithDpRank>, footprint: usize, step_count: usize) -> Program {
    Program::running(footprint, assigned_worker, step_count)
}

fn ready(id: u64, placement: WorkerPlacement) -> AdmissionAction {
    AdmissionAction { id: AdmissionId::new(id), placement }
}

#[test]
fn sessionless_requests_do_not_create_program_state() {
    let mut h = Harness::new(capacities(&[(1, 1_000)]), Config::default());
    assert_eq!(h.offer(1, None, 100), AdmissionDecision::Bypass);
    assert_eq!(h.policy.program_count(), 0);
}

#[test]
fn new_session_uses_least_loaded_worker_and_sticks() {
    let mut h = Harness::new(capacities(&[(1, 1_000), (2, 1_000)]), Config::default());
    assert_eq!(h.offer(1, Some("a"), 100), AdmissionDecision::Ready(WorkerPlacement::Exact(worker(1))));
    h.dispatched(1, 1);
    h.completed(1, 150);
    assert!(h.program("a").is_idle_resident());
    assert_eq!(h.program("a").footprint(), 150);
    assert_eq!(h.offer(2, Some("a"), 120), AdmissionDecision::Ready(WorkerPlacement::Exact(worker(1))));
}

#[test]
fn active_session_continuation_bypasses_retained_capacity() {
    let mut h = Harness::new(tiered_capacities(&[(1, 100, 100)]), Config::default());
    assert_eq!(h.offer(1, Some("a"), 70), AdmissionDecision::Ready(WorkerPlacement::Exact(worker(1))));
    h.dispatched(1, 1);
    h.completed(1, 70);
    assert_eq!(h.offer(2, Some("b"), 30), AdmissionDecision::Ready(WorkerPlacement::Exact(worker(1))));
    h.dispatched(2, 1);
    h.completed(2, 30);

    assert_eq!(h.offer(3, Some("a"), 80), AdmissionDecision::Ready(WorkerPlacement::Exact(worker(1))));
    assert_eq!(h.offer(4, Some("c"), 1), AdmissionDecision::Defer);
}

#[test]
fn active_session_continuation_respects_device_capacity() {
    let mut h = Harness::new(tiered_capacities(&[(1, 100, 1_000)]), Config::default());
    assert_eq!(h.offer(1, Some("a"), 40), AdmissionDecision::Ready(WorkerPlacement::Exact(worker(1))));
    h.dispatched(1, 1);
    h.completed(1, 40);
    assert_eq!(h.offer(2, Some("b"), 80), AdmissionDecision::Ready(WorkerPlacement::Exact(worker(1))));

    assert_eq!(h.offer(3, Some("a"), 30), AdmissionDecision::Defer);
    assert_eq!(h.program("a").assigned_worker, Some(worker(1)));
    assert!(h.program("a").is_suspended());
}

#[test]
fn defers_backend_work_before_exhausting_hicache_retention() {
    let mut h = Harness::new(tiered_capacities(&[(1, 100, 1_000)]), Config::default());
    assert_eq!(h.offer(1, Some("running"), 80), AdmissionDecision::Ready(WorkerPlacement::Exact(worker(1))));
    assert_eq!(h.offer(2, Some("waiting"), 30), AdmissionDecision::Defer);
    assert!(h.program("waiting").is_suspended());

    assert!(h.reconcile_now().is_empty());
    assert!(h.program("waiting").is_suspended());
}

#[test]
fn placement_respects_request_worker_eligibility() {
    let mut h = Harness::new(capacities(&[(1, 1_000), (2, 1_000)]), Config::default());
    assert_eq!(
        h.offer_filtered(1, Some("a"), 100, vec![worker(2)]),
        AdmissionDecision::Ready(WorkerPlacement::Exact(worker(2)))
    );
}

#[test]
fn deferred_request_rechecks_live_worker_eligibility() {
    let mut h = Harness::new(capacities(&[(1, 1_000)]), Config::default());
    h.policy.insert_program("paused".to_string(), suspended_program(0, h.now, 0));
    assert_eq!(h.offer_filtered(1, Some("paused"), 100, Vec::new()), AdmissionDecision::Defer);

    assert!(h.reconcile_now().is_empty());

    h.elig.insert(1, WorkerEligibilitySnapshot::new(vec![worker(1)]));
    assert_eq!(h.reconcile_now(), vec![ready(1, WorkerPlacement::Exact(worker(1)))]);
}

#[test]
fn sticky_session_reassigns_after_worker_removal() {
    let mut h = Harness::new(capacities(&[(1, 1_000), (2, 1_000)]), Config::default());
    assert_eq!(h.offer(1, Some("a"), 100), AdmissionDecision::Ready(WorkerPlacement::Exact(worker(1))));
    h.dispatched(1, 1);
    h.completed(1, 150);

    h.caps = capacities(&[(2, 1_000)]);
    assert_eq!(
        h.offer_filtered(2, Some("a"), 120, vec![worker(2)]),
        AdmissionDecision::Ready(WorkerPlacement::Exact(worker(2)))
    );
}

fn availability(structural: Vec<WorkerWithDpRank>, available: Vec<WorkerWithDpRank>) -> WorkerEligibilitySnapshot {
    WorkerEligibilitySnapshot::with_availability(structural, available)
}

#[test]
fn sticky_session_waits_for_transiently_unavailable_worker() {
    let mut h = Harness::new(capacities(&[(1, 1_000), (2, 1_000)]), Config::default());
    assert_eq!(
        h.offer_with(1, Some("a"), false, 100, availability(vec![worker(1), worker(2)], vec![worker(1), worker(2)])),
        AdmissionDecision::Ready(WorkerPlacement::Exact(worker(1)))
    );
    h.dispatched(1, 1);
    h.completed(1, 150);

    assert_eq!(
        h.offer_with(2, Some("a"), false, 160, availability(vec![worker(1), worker(2)], vec![worker(2)])),
        AdmissionDecision::Defer
    );
    assert_eq!(h.program("a").assigned_worker, Some(worker(1)));
    assert!(h.reconcile_now().is_empty());

    h.elig.insert(2, availability(vec![worker(1), worker(2)], vec![worker(1), worker(2)]));
    assert_eq!(h.reconcile_now(), vec![ready(2, WorkerPlacement::Exact(worker(1)))]);
}

#[test]
fn deferred_sticky_session_reassigns_after_worker_removal() {
    let mut h = Harness::new(capacities(&[(1, 1_000), (2, 1_000)]), Config::default());
    assert_eq!(h.offer(1, Some("a"), 100), AdmissionDecision::Ready(WorkerPlacement::Exact(worker(1))));
    h.dispatched(1, 1);
    h.completed(1, 150);

    assert_eq!(
        h.offer_with(2, Some("a"), false, 160, availability(vec![worker(1), worker(2)], vec![worker(2)])),
        AdmissionDecision::Defer
    );
    assert_eq!(h.program("a").assigned_worker, Some(worker(1)));

    h.elig.insert(2, availability(vec![worker(2)], vec![worker(2)]));
    assert_eq!(h.reconcile_now(), vec![ready(2, WorkerPlacement::Exact(worker(2)))]);
    assert_eq!(h.program("a").assigned_worker, Some(worker(2)));
}

#[test]
fn sticky_session_drops_disallowed_worker_without_capacity_metadata() {
    let mut h = Harness::new(capacities(&[(1, 1_000)]), Config::default());
    h.offer(1, Some("a"), 100);
    h.dispatched(1, 1);
    h.completed(1, 150);

    h.caps.clear();
    assert_eq!(h.offer_filtered(2, Some("a"), 120, vec![worker(2)]), AdmissionDecision::Ready(WorkerPlacement::Any));
    assert_eq!(h.program("a").assigned_worker, None);
}

#[test]
fn completion_commits_authoritative_context_tokens() {
    let mut h = Harness::new(capacities(&[(1, 1_000)]), Config::default());
    h.offer(1, Some("a"), 100);
    h.dispatched(1, 1);
    h.completed(1, 140);
    assert!(h.program("a").is_idle_resident());
    assert_eq!(h.program("a").footprint(), 140);
}

#[test]
fn session_final_releases_program_and_routes_normally() {
    let mut h = Harness::new(capacities(&[(1, 1_000)]), Config::default());
    assert_eq!(h.offer(1, Some("a"), 100), AdmissionDecision::Ready(WorkerPlacement::Exact(worker(1))));
    h.dispatched(1, 1);
    h.completed(1, 140);

    assert_eq!(h.offer_final(2, Some("a"), 1), AdmissionDecision::Ready(WorkerPlacement::Exact(worker(1))));
    assert!(!h.has_program("a"));

    h.dispatched(2, 1);
    h.completed(2, 1);
    assert!(!h.has_program("a"));

    assert_eq!(h.offer_final(3, Some("a"), 1), AdmissionDecision::Ready(WorkerPlacement::Any));
    h.aborted(3);
    assert!(!h.has_program("a"));
}

#[test]
fn session_final_waits_for_inflight_turn_before_release() {
    let mut h = Harness::new(capacities(&[(1, 1_000)]), Config::default());
    assert_eq!(h.offer(1, Some("a"), 100), AdmissionDecision::Ready(WorkerPlacement::Exact(worker(1))));
    h.dispatched(1, 1);

    assert_eq!(h.offer_final(2, Some("a"), 1), AdmissionDecision::Defer);
    assert!(h.has_program("a"));

    assert_eq!(h.completed(1, 140), vec![ready(2, WorkerPlacement::Exact(worker(1)))]);
    assert!(!h.has_program("a"));

    h.aborted(2);
    assert!(!h.has_program("a"));
}

#[test]
fn live_progress_updates_inflight_reasoning_context_tokens() {
    let mut h = Harness::new(capacities(&[(1, 1_000)]), Config::default());
    h.offer(1, Some("a"), 100);
    h.dispatched(1, 1);
    h.policy.report_progress(AdmissionId::new(1), 128);

    let program = h.program("a");
    assert!(matches!(program.state, ProgramState::Running { .. }));
    assert_eq!(program.footprint(), 128);

    h.completed(1, 140);
    assert!(h.program("a").is_idle_resident());
    assert_eq!(h.program("a").footprint(), 140);
}

#[test]
fn retention_expiry_removes_only_quiescent_acting_programs() {
    let mut h = Harness::new(Vec::new(), Config { session_retention_seconds: 900, ..Default::default() });
    let now = h.now;
    let expired_at = now - 900 * SEC;

    for (session_id, program) in [
        ("expired-active", idle_program(Some(worker(1)), 100, expired_at, 0)),
        ("expired-paused", suspended_program(200, expired_at, 0)),
        ("fresh", idle_program(Some(worker(1)), 300, expired_at + 1, 0)),
        ("reasoning", running_program(Some(worker(1)), 400, 0)),
        ("busy", idle_program(Some(worker(1)), 500, expired_at, 0)),
    ] {
        h.policy.insert_program(session_id.to_owned(), program);
    }
    h.policy.set_session_current(&"busy".to_string(), AdmissionId::new(99));

    assert_eq!(h.policy.expire_retained_programs(now), 2);
    assert!(!h.has_program("expired-active"));
    assert!(!h.has_program("expired-paused"));
    assert!(h.has_program("fresh"));
    assert!(h.has_program("reasoning"));
    assert!(h.has_program("busy"));

    let (usage, _) = h.policy.worker_usages();
    assert_eq!(usage.get(worker(1)), Some(1_200));
}

#[test]
fn expired_session_returns_as_a_new_program() {
    let mut h = Harness::new(capacities(&[(1, 1_000)]), Config { session_retention_seconds: 900, ..Default::default() });
    let last = h.now + 5 * SEC - 901 * SEC;
    h.policy.insert_program("expired".to_owned(), idle_program(Some(worker(2)), 700, last, 4));

    assert!(h.reconcile_now().is_empty());
    assert!(!h.has_program("expired"));
    assert_eq!(h.offer(100, Some("expired"), 100), AdmissionDecision::Ready(WorkerPlacement::Exact(worker(1))));
    assert_eq!(h.program("expired").step_count, 1);
}

#[test]
fn pressure_pause_clears_affinity_and_repacks_deferred_turn() {
    let mut h = Harness::new(capacities(&[(1, 300)]), Config { pause_threshold: 0.8, pause_target: 0.5, ..Default::default() });

    for (id, session, input, output) in [(1, "small", 80, 20), (2, "large", 150, 30)] {
        assert!(matches!(h.offer(id, Some(session), input), AdmissionDecision::Ready(_)));
        h.dispatched(id, 1);
        h.completed(id, input + output);
    }

    assert!(h.event(AdmissionEvent::Reconcile).is_empty());
    assert!(h.program("small").is_idle_resident());
    assert!(h.reconcile_now().is_empty());
    assert!(h.program("small").is_suspended());
    assert_eq!(h.program("small").assigned_worker, None);
    assert_eq!(h.offer(3, Some("small"), 110), AdmissionDecision::Defer);
    assert_eq!(h.program("small").assigned_worker, None);

    h.caps = capacities(&[(1, 200), (2, 600)]);
    assert_eq!(h.reconcile_now(), vec![ready(3, WorkerPlacement::Exact(worker(2)))]);
}

#[test]
fn resume_selection_respects_per_worker_eligibility() {
    let mut h = Harness::new(capacities(&[(1, 100), (2, 100)]), Config::default());
    for session_id in ["a", "b", "c"] {
        h.policy.insert_program(session_id.to_owned(), suspended_program(0, h.now, 2));
    }
    assert_eq!(h.offer_filtered(1, Some("a"), 80, vec![worker(1)]), AdmissionDecision::Defer);
    assert_eq!(h.offer_filtered(2, Some("b"), 80, vec![worker(1)]), AdmissionDecision::Defer);
    assert_eq!(h.offer_filtered(3, Some("c"), 80, vec![worker(2)]), AdmissionDecision::Defer);

    assert_eq!(
        h.reconcile_now(),
        vec![ready(1, WorkerPlacement::Exact(worker(1))), ready(3, WorkerPlacement::Exact(worker(2)))]
    );
    assert!(h.program("b").is_suspended());
}

#[test]
fn resume_selection_reassigns_flexible_work_for_a_constrained_candidate() {
    let mut h = Harness::new(capacities(&[(1, 100), (2, 100)]), Config::default());
    for session_id in ["flexible", "constrained"] {
        h.policy.insert_program(session_id.to_owned(), suspended_program(0, h.now, 2));
    }
    assert_eq!(h.offer(1, Some("flexible"), 80), AdmissionDecision::Defer);
    assert_eq!(h.offer_filtered(2, Some("constrained"), 80, vec![worker(1)]), AdmissionDecision::Defer);

    assert_eq!(
        h.reconcile_now(),
        vec![ready(2, WorkerPlacement::Exact(worker(1))), ready(1, WorkerPlacement::Exact(worker(2)))]
    );
}

#[test]
fn pressure_marks_only_enough_running_context_to_reach_target() {
    let mut h = Harness::new(Vec::new(), Config { pause_threshold: 0.8, pause_target: 0.8, ..Default::default() });
    h.policy.insert_program("large".to_owned(), running_program(Some(worker(1)), 600, 1));
    h.policy.insert_program("small".to_owned(), running_program(Some(worker(1)), 300, 1));
    let capacity = [PressureCapacity {
        capacity: WorkerCapacity { worker: worker(1), device_tokens: 1_000, tokens: 1_000 },
        threshold_tokens: scale(1_000, 0.8),
        target_tokens: scale(1_000, 0.8),
    }];

    let (mut usage, _) = h.policy.worker_usages();
    assert_eq!(h.policy.pause_until_safe(&capacity, &mut usage), (0, 1));
    assert!(h.program("small").pause_after_completion());
    assert!(!h.program("large").pause_after_completion());

    let (mut usage, _) = h.policy.worker_usages();
    assert_eq!(h.policy.pause_until_safe(&capacity, &mut usage), (0, 0));
    assert!(!h.program("large").pause_after_completion());
}

#[test]
fn law_no_pressure_pauses_nothing() {
    let mut h = Harness::new(Vec::new(), Config { pause_threshold: 0.8, pause_target: 0.5, ..Default::default() });
    h.policy.insert_program("idle".to_owned(), idle_program(Some(worker(1)), 500, h.now, 1));
    h.policy.insert_program("busy".to_owned(), running_program(Some(worker(1)), 300, 1));
    let capacity = [PressureCapacity {
        capacity: WorkerCapacity { worker: worker(1), device_tokens: 1_000, tokens: 1_000 },
        threshold_tokens: scale(1_000, 0.8),
        target_tokens: scale(1_000, 0.5),
    }];
    let (mut usage, _) = h.policy.worker_usages();
    assert_eq!(usage.get_or_zero(worker(1)), 800);
    assert_eq!(h.policy.pause_until_safe(&capacity, &mut usage), (0, 0));
    assert!(h.program("idle").is_idle_resident());
    assert!(!h.program("busy").pause_after_completion());
    assert_eq!(usage.get_or_zero(worker(1)), 800);
}

#[test]
fn law_pausing_touches_only_idle_programs_of_overloaded_workers() {
    let mut h = Harness::new(Vec::new(), Config { pause_threshold: 0.8, pause_target: 0.5, ..Default::default() });
    h.policy.insert_program("big-idle".to_owned(), idle_program(Some(worker(1)), 600, h.now, 1));
    h.policy.insert_program("small-idle".to_owned(), idle_program(Some(worker(1)), 100, h.now, 1));
    h.policy.insert_program("busy".to_owned(), running_program(Some(worker(1)), 250, 1));
    h.policy.insert_program("other".to_owned(), idle_program(Some(worker(2)), 700, h.now, 1));
    let capacity = [
        PressureCapacity {
            capacity: WorkerCapacity { worker: worker(1), device_tokens: 1_000, tokens: 1_000 },
            threshold_tokens: scale(1_000, 0.8),
            target_tokens: scale(1_000, 0.5),
        },
        PressureCapacity {
            capacity: WorkerCapacity { worker: worker(2), device_tokens: 1_000, tokens: 1_000 },
            threshold_tokens: scale(1_000, 0.8),
            target_tokens: scale(1_000, 0.5),
        },
    ];
    let (mut usage, _) = h.policy.worker_usages();
    assert_eq!(h.policy.pause_until_safe(&capacity, &mut usage), (2, 0));
    assert!(h.program("small-idle").is_suspended());
    assert!(h.program("big-idle").is_suspended());
    assert_eq!(h.program("big-idle").assigned_worker, None);
    assert!(matches!(h.program("busy").state, ProgramState::Running { .. }));
    assert!(h.program("other").is_idle_resident());
}

#[test]
fn law_abort_with_a_waiter_restores_the_prior_program_first() {
    let mut h = Harness::new(capacities(&[(1, 1_000)]), Config::default());
    h.policy.insert_program("s".to_owned(), idle_program(Some(worker(1)), 200, h.now, 3));
    assert!(matches!(h.offer(1, Some("s"), 300), AdmissionDecision::Ready(_)));
    assert_eq!(h.offer(2, Some("s"), 350), AdmissionDecision::Defer);
    assert_eq!(h.aborted(1), vec![ready(2, WorkerPlacement::Exact(worker(1)))]);
    assert_eq!(h.program("s").step_count, 4);
    assert_eq!(h.program("s").footprint(), 350);
    assert!(h.aborted(2).is_empty());
    let program = h.program("s");
    assert!(program.is_idle_resident());
    assert_eq!(program.footprint(), 200);
    assert_eq!(program.step_count, 3);
}

#[test]
fn law_waiting_queues_always_have_an_owner() {
    let mut h = Harness::new(capacities(&[(1, 1_000)]), Config::default());
    let s = "s".to_owned();
    assert!(matches!(h.offer(1, Some("s"), 100), AdmissionDecision::Ready(_)));
    assert_eq!(h.offer(2, Some("s"), 100), AdmissionDecision::Defer);
    assert_eq!(h.offer(3, Some("s"), 100), AdmissionDecision::Defer);
    assert!(h.aborted(2).is_empty());
    assert_eq!(h.policy.session_current(&s), Some(AdmissionId { value: 1 }));
    let actions = h.aborted(1);
    assert_eq!(actions.len(), 1);
    assert_eq!(actions[0].id, AdmissionId { value: 3 });
    assert_eq!(h.policy.session_current(&s), Some(AdmissionId { value: 3 }));
    assert!(h.aborted(3).is_empty());
    assert_eq!(h.policy.session_current(&s), None);
    assert!(matches!(h.offer(4, Some("s"), 100), AdmissionDecision::Ready(_)));
    assert_eq!(h.policy.session_current(&s), Some(AdmissionId { value: 4 }));
}

#[test]
fn missing_capacity_metadata_immediately_releases_deferred_request() {
    let mut h = Harness::new(Vec::new(), Config::default());
    h.policy.insert_program("paused".to_owned(), suspended_program(0, h.now, 0));
    assert_eq!(h.offer(1, Some("paused"), 100), AdmissionDecision::Defer);
    assert_eq!(h.reconcile_now(), vec![ready(1, WorkerPlacement::Any)]);
}

#[test]
fn missing_capacity_metadata_does_not_bypass_transient_overload() {
    let mut h = Harness::new(Vec::new(), Config::default());
    h.policy.insert_program("paused".to_owned(), suspended_program(0, h.now, 0));
    assert_eq!(
        h.offer_with(1, Some("paused"), false, 100, availability(vec![worker(1)], Vec::new())),
        AdmissionDecision::Defer
    );

    assert!(h.reconcile_now().is_empty());
    assert!(h.program("paused").is_suspended());
}

#[test]
fn missing_capacity_for_sticky_worker_releases_exact_with_mixed_metadata() {
    let mut h = Harness::new(capacities(&[(2, 1_000)]), Config::default());
    let mut paused = suspended_program(0, h.now, 2);
    paused.assigned_worker = Some(worker(1));
    h.policy.insert_program("paused".to_owned(), paused);
    assert_eq!(h.offer(1, Some("paused"), 100), AdmissionDecision::Defer);

    assert_eq!(h.reconcile_now(), vec![ready(1, WorkerPlacement::Exact(worker(1)))]);
}

#[test]
fn forced_resume_delegates_worker_selection() {
    let mut h = Harness::new(capacities(&[(1, 100), (2, 100)]), Config { resume_timeout_seconds: 1, ..Default::default() });
    for (session_id, assigned_worker, footprint) in [("worker-1", worker(1), 300), ("worker-2", worker(2), 200)] {
        h.policy.insert_program(session_id.to_owned(), idle_program(Some(assigned_worker), footprint, h.now, 0));
    }
    h.policy.insert_program("paused".to_owned(), suspended_program(0, h.now, 0));
    assert_eq!(h.offer(1, Some("paused"), 50), AdmissionDecision::Defer);
    let mut paused = h.program("paused");
    if let ProgramState::Suspended { footprint, .. } = paused.state {
        paused.state = ProgramState::Suspended { footprint, since: h.now - 2 * SEC };
    } else {
        panic!("program must be suspended");
    }
    h.policy.insert_program("paused".to_owned(), paused);

    assert_eq!(h.reconcile_now(), vec![ready(1, WorkerPlacement::Any)]);
}

#[test]
fn cancellation_before_dispatch_restores_prior_program_state() {
    let mut h = Harness::new(Vec::new(), Config::default());
    h.policy.insert_program("existing".to_owned(), idle_program(None, 200, h.now, 3));
    assert!(matches!(h.offer(1, Some("existing"), 300), AdmissionDecision::Ready(_)));
    h.aborted(1);
    let program = h.program("existing");
    assert!(program.is_idle_resident());
    assert_eq!(program.footprint(), 200);
    assert_eq!(program.step_count, 3);
}

#[test]
fn cancellation_after_dispatch_restores_prior_program_state() {
    let mut h = Harness::new(capacities(&[(1, 1_000)]), Config::default());
    h.policy.insert_program("existing".to_owned(), idle_program(Some(worker(1)), 200, h.now, 3));
    h.offer(1, Some("existing"), 300);
    h.dispatched(1, 1);
    h.aborted(1);

    let program = h.program("existing");
    assert!(program.is_idle_resident());
    assert_eq!(program.footprint(), 200);
    assert_eq!(program.step_count, 3);
}

#[test]
fn concurrent_session_request_waits_without_mutating_program() {
    let mut h = Harness::new(capacities(&[(1, 1_000)]), Config::default());
    assert_eq!(h.offer(1, Some("same"), 100), AdmissionDecision::Ready(WorkerPlacement::Exact(worker(1))));
    assert_eq!(h.offer(2, Some("same"), 900), AdmissionDecision::Defer);
    assert!(matches!(h.program("same").state, ProgramState::Running { .. }));
    assert_eq!(h.program("same").footprint(), 100);
    assert_eq!(h.program("same").step_count, 1);

    assert!(h.aborted(2).is_empty());
    h.dispatched(1, 1);
    h.completed(1, 150);
    assert!(h.program("same").is_idle_resident());
    assert_eq!(h.program("same").footprint(), 150);
    assert_eq!(h.program("same").step_count, 1);
}

#[test]
fn cancelling_current_session_request_promotes_one_waiter() {
    let mut h = Harness::new(capacities(&[(1, 1_000)]), Config::default());
    assert!(matches!(h.offer(1, Some("same"), 100), AdmissionDecision::Ready(_)));
    assert_eq!(h.offer(2, Some("same"), 120), AdmissionDecision::Defer);

    assert_eq!(h.aborted(1), vec![ready(2, WorkerPlacement::Exact(worker(1)))]);
    assert!(matches!(h.program("same").state, ProgramState::Running { .. }));
    assert_eq!(h.program("same").footprint(), 120);
    assert_eq!(h.program("same").step_count, 1);
    assert_eq!(h.policy.session_current(&"same".to_string()), Some(AdmissionId::new(2)));
}

// ---------------------------------------------------------------------------
// Laws on concrete values

#[test]
fn law_busy_session_defers_without_changing_the_program() {
    let mut h = Harness::new(capacities(&[(1, 1_000)]), Config::default());
    h.offer(1, Some("s"), 10);
    let before = h.program("s");
    assert_eq!(h.offer(2, Some("s"), 500), AdmissionDecision::Defer);
    assert_eq!(h.program("s"), before);
    assert_eq!(h.policy.session_current(&"s".to_string()), Some(AdmissionId::new(1)));
    assert_eq!(h.policy.promotion_candidate(AdmissionId::new(1)), Some(AdmissionId::new(2)));
}

#[test]
fn law_abort_of_a_new_session_leaves_no_program() {
    let mut h = Harness::new(capacities(&[(1, 1_000)]), Config::default());
    h.offer(1, Some("fresh"), 10);
    assert!(h.has_program("fresh"));
    assert!(h.aborted(1).is_empty());
    assert!(!h.has_program("fresh"));
    assert_eq!(h.policy.session_current(&"fresh".to_string()), None);
}

#[test]
fn law_reconcile_before_the_tick_changes_nothing() {
    let mut h = Harness::new(capacities(&[(1, 100)]), Config::default());
    h.policy.insert_program("paused".to_owned(), suspended_program(0, h.now, 0));
    assert_eq!(h.offer(1, Some("paused"), 10), AdmissionDecision::Defer);
    let tick = h.policy.next_tick();
    assert!(h.event(AdmissionEvent::Reconcile).is_empty());
    assert_eq!(h.policy.next_tick(), tick);
    assert!(h.program("paused").is_suspended());
}

#[test]
fn law_reconcile_releases_only_served_requests() {
    let mut h = Harness::new(capacities(&[(1, 1_000)]), Config::default());
    h.policy.insert_program("paused".to_owned(), suspended_program(10, h.now, 2));
    assert_eq!(h.offer(1, Some("paused"), 10), AdmissionDecision::Defer);
    assert_eq!(h.offer(2, Some("paused"), 10), AdmissionDecision::Defer);
    let actions = h.reconcile_now();
    assert_eq!(actions.len(), 1);
    assert_eq!(actions[0].id, AdmissionId::new(1));
    assert_eq!(h.policy.session_current(&"paused".to_string()), Some(AdmissionId::new(1)));
    assert_eq!(h.policy.promotion_candidate(AdmissionId::new(1)), Some(AdmissionId::new(2)));
}

#[test]
fn law_finishing_promotes_the_first_waiter_only() {
    let mut h = Harness::new(capacities(&[(1, 1_000)]), Config::default());
    h.offer(1, Some("s"), 10);
    h.offer(2, Some("s"), 10);
    h.offer(3, Some("s"), 10);
    assert_eq!(h.completed(1, 20), vec![ready(2, WorkerPlacement::Exact(worker(1)))]);
    assert_eq!(h.policy.session_current(&"s".to_string()), Some(AdmissionId::new(2)));
    assert_eq!(h.policy.promotion_candidate(AdmissionId::new(2)), Some(AdmissionId::new(3)));
    assert!(h.aborted(3).is_empty());
    assert_eq!(h.policy.promotion_candidate(AdmissionId::new(2)), None);
    assert_eq!(h.policy.session_current(&"s".to_string()), Some(AdmissionId::new(2)));
}

#[test]
fn reconcile_advances_the_tick_by_one_interval() {
    let mut h = Harness::new(Vec::new(), Config::default());
    h.reconcile_now();
    assert_eq!(h.policy.next_tick(), START + 10 * SEC);
    assert_eq!(h.policy.reconcile_interval_nanos(), 5 * SEC);
}

#[test]
fn deferred_requests_lists_requests_behind_paused_programs() {
    let mut h = Harness::new(capacities(&[(1, 1_000)]), Config::default());
    h.policy.insert_program("paused".to_owned(), suspended_program(0, h.now, 2));
    h.offer(7, Some("paused"), 10);
    h.offer(8, Some("other"), 10);
    assert_eq!(h.policy.deferred_requests(), vec![AdmissionId::new(7), AdmissionId::new(8)]);
}

// ---------------------------------------------------------------------------
// Capacity snapshots

fn config(start: u32, size: u32, blocks: Option<u64>, offload: Option<u64>) -> WorkerConfigData {
    WorkerConfigData {
        data_parallel_start_rank: start,
        data_parallel_size: size,
        total_kv_blocks: blocks,
        native_offloading_capacity_tokens: offload,
    }
}

#[test]
fn watch_provider_expands_dp_ranks_and_offload_capacity() {
    let mut cache = CapacityCache::new(16);
    let (caps, _) = cache.snapshot(true, &[(11, config(2, 2, Some(10), Some(7)))]);
    assert_eq!(
        caps,
        vec![
            WorkerCapacity { worker: WorkerWithDpRank::new(11, 2), device_tokens: 160, tokens: 167 },
            WorkerCapacity { worker: WorkerWithDpRank::new(11, 3), device_tokens: 160, tokens: 167 },
        ]
    );
}

#[test]
fn watch_provider_treats_zero_kv_blocks_as_missing_capacity() {
    let mut cache = CapacityCache::new(16);
    let (caps, first_warning) = cache.snapshot(true, &[(11, config(0, 1, Some(0), Some(1_000)))]);
    assert!(caps.is_empty());
    assert!(first_warning);
    assert!(cache.warned_missing_capacity());
}

#[test]
fn capacity_snapshot_sorts_by_worker_and_rank() {
    let (caps, missing) = capacity_snapshot_of(
        &[(9, config(0, 1, Some(2), None)), (3, config(1, 2, Some(1), None)), (5, config(0, 1, None, None))],
        4,
    );
    assert_eq!(missing, 1);
    let workers: Vec<(u64, u32)> = caps.iter().map(|c| (c.worker.worker_id, c.worker.dp_rank)).collect();
    assert_eq!(workers, vec![(3, 1), (3, 2), (9, 0)]);
    assert_eq!(caps[2].device_tokens, 8);
}

#[test]
fn capacity_cache_reuses_the_snapshot_until_workers_change() {
    let mut cache = CapacityCache::new(1);
    let (first, _) = cache.snapshot(true, &[(1, config(0, 1, Some(5), None))]);
    let (cached, _) = cache.snapshot(false, &[(2, config(0, 1, Some(9), None))]);
    assert_eq!(first, cached);
    let (fresh, _) = cache.snapshot(true, &[(2, config(0, 1, Some(9), None))]);
    assert_eq!(fresh[0].worker.worker_id, 2);
}

#[test]
fn capacity_saturates_block_tokens() {
    let (caps, _) = capacity_snapshot_of(&[(1, config(0, 1, Some(u64::MAX), Some(5)))], 2);
    assert_eq!(caps[0].device_tokens, usize::MAX);
    assert_eq!(caps[0].tokens, usize::MAX);
}

// ---------------------------------------------------------------------------
// Built-in policy registration

fn class(name: &str, policy_type: Option<&str>, config_error: Option<&str>) -> ClassInfo {
    ClassInfo {
        name: name.to_string(),
        admission: policy_type.map(|t| AdmissionInfo {
            policy_type: t.to_string(),
            config_error: config_error.map(|e| e.to_string()),
        }),
        fcfs: true,
        explicit: true,
        stable_family: true,
    }
}

fn profile() -> Vec<ClassInfo> {
    let mut standard = class("standard", None, None);
    standard.explicit = false;
    vec![standard, class("agents", Some("session_aware"), None)]
}

#[test]
fn builds_configured_session_aware() {
    assert_eq!(plan_builtin_policies(&profile(), &[]).unwrap(), vec![1]);
}

#[test]
fn preserves_caller_provided_policy() {
    assert_eq!(plan_builtin_policies(&profile(), &["agents".to_string()]).unwrap(), Vec::<usize>::new());
}

#[test]
fn validates_config_before_honoring_caller_policy() {
    let classes = vec![
        class("standard", None, None),
        class("agents", Some("session_aware"), Some("scheduler_interval_seconds must be a positive duration")),
    ];
    assert!(matches!(
        plan_builtin_policies(&classes, &["agents".to_string()]),
        Err(RegistrationError::Config(_))
    ));
}

#[test]
fn counts_configured_classes_before_honoring_caller_policies() {
    let classes = vec![
        class("standard", None, None),
        class("agents-a", Some("session_aware"), None),
        class("agents-b", Some("session_aware"), None),
    ];
    assert!(matches!(
        plan_builtin_policies(&classes, &["agents-a".to_string(), "agents-b".to_string()]),
        Err(RegistrationError::MultipleClasses { .. })
    ));
}

#[test]
fn rejects_session_aware_on_a_multi_bucket_family_class() {
    let mut cached = class("agents-cached", Some("session_aware"), None);
    cached.explicit = false;
    cached.stable_family = false;
    let mut uncached = class("agents-uncached", None, None);
    uncached.explicit = false;
    uncached.stable_family = false;
    assert!(matches!(
        plan_builtin_policies(&[cached, uncached], &[]),
        Err(RegistrationError::RequiresStableClass(_))
    ));
}

#[test]
fn builds_session_aware_on_the_default_familys_only_bucket() {
    let mut agents = class("agents", Some("session_aware"), None);
    agents.explicit = false;
    assert_eq!(plan_builtin_policies(&[agents], &[]).unwrap(), vec![0]);
}

#[test]
fn rejects_unimplemented_policy_type() {
    assert!(matches!(
        plan_builtin_policies(&[class("agents", Some("misspelled"), None)], &[]),
        Err(RegistrationError::UnknownPolicyType { .. })
    ));
}

#[test]
fn preserves_caller_implementation_for_custom_policy_type() {
    assert_eq!(
        plan_builtin_policies(&[class("agents", Some("custom"), None)], &["agents".to_string()]).unwrap(),
        Vec::<usize>::new()
    );
}

#[test]
fn session_aware_requires_fcfs() {
    let mut agents = class("agents", Some("session_aware"), None);
    agents.fcfs = false;
    assert!(matches!(plan_builtin_policies(&[agents], &[]), Err(RegistrationError::RequiresFcfs(_))));
}
