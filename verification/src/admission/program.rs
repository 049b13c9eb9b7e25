//! The per-session program record and its lifecycle states.

use vstd::prelude::*;
use super::types::WorkerWithDpRank;

verus! {

/// Where a session's program stands. Times are policy-clock nanoseconds.
#[derive(Clone, Copy, Debug, PartialEq, Eq, Structural)]
pub enum ProgramState {
    /// A turn is admitted and in flight; its context grows with progress.
    Running { context_tokens: usize, pause_after_completion: bool },
    /// The last turn completed; the context stays resident on its worker.
    IdleResident { footprint: usize, last_activity: u64 },
    /// Paused by the policy; holds no worker capacity.
    Suspended { footprint: usize, since: u64 },
}

/// One session's program: its state, sticky worker and completed-turn count.
#[derive(Clone, Copy, Debug, PartialEq, Eq, Structural)]
pub struct Program {
    pub state: ProgramState,
    pub assigned_worker: Option<WorkerWithDpRank>,
    pub step_count: usize,
}

pub open spec fn footprint_of(p: Program) -> usize {
    match p.state {
        ProgramState::Running { context_tokens, .. } => context_tokens,
        ProgramState::IdleResident { footprint, .. } => footprint,
        ProgramState::Suspended { footprint, .. } => footprint,
    }
}

pub open spec fn is_suspended(p: Program) -> bool {
    p.state is Suspended
}

pub open spec fn is_running(p: Program) -> bool {
    p.state is Running
}

pub open spec fn is_idle_resident(p: Program) -> bool {
    p.state is IdleResident
}

pub open spec fn is_marked(p: Program) -> bool {
    match p.state {
        ProgramState::Running { pause_after_completion, .. } => pause_after_completion,
        _ => false,
    }
}

/// When a program stopped holding an in-flight turn, if it is not running.
pub open spec fn retained_since(p: Program) -> Option<u64> {
    match p.state {
        ProgramState::IdleResident { last_activity, .. } => Some(last_activity),
        ProgramState::Suspended { since, .. } => Some(since),
        ProgramState::Running { .. } => None,
    }
}

pub open spec fn suspended_since(p: Program) -> Option<u64> {
    match p.state {
        ProgramState::Suspended { since, .. } => Some(since),
        _ => None,
    }
}

/// A fresh running program for an admitted turn.
pub open spec fn running_program(
    context_tokens: usize,
    assigned_worker: Option<WorkerWithDpRank>,
    step_count: usize,
) -> Program {
    Program {
        state: ProgramState::Running { context_tokens, pause_after_completion: false },
        assigned_worker,
        step_count,
    }
}

impl Program {
    pub fn running(
        context_tokens: usize,
        assigned_worker: Option<WorkerWithDpRank>,
        step_count: usize,
    ) -> (r: Program)
        ensures
            r == running_program(context_tokens, assigned_worker, step_count),
    {
        Program {
            state: ProgramState::Running { context_tokens, pause_after_completion: false },
            assigned_worker,
            step_count,
        }
    }

    pub fn idle_resident(
        assigned_worker: Option<WorkerWithDpRank>,
        footprint: usize,
        last_activity: u64,
        step_count: usize,
    ) -> (r: Program)
        ensures
            r == (Program {
                state: ProgramState::IdleResident { footprint, last_activity },
                assigned_worker,
                step_count,
            }),
    {
        Program {
            state: ProgramState::IdleResident { footprint, last_activity },
            assigned_worker,
            step_count,
        }
    }

    pub fn suspended(footprint: usize, since: u64, step_count: usize) -> (r: Program)
        ensures
            r == (Program {
                state: ProgramState::Suspended { footprint, since },
                assigned_worker: None,
                step_count,
            }),
    {
        Program { state: ProgramState::Suspended { footprint, since }, assigned_worker: None, step_count }
    }

    pub fn footprint(&self) -> (r: usize)
        ensures
            r == footprint_of(*self),
    {
        match self.state {
            ProgramState::Running { context_tokens, .. } => context_tokens,
            ProgramState::IdleResident { footprint, .. } => footprint,
            ProgramState::Suspended { footprint, .. } => footprint,
        }
    }

    pub fn is_suspended(&self) -> (r: bool)
        ensures
            r == is_suspended(*self),
    {
        match self.state {
            ProgramState::Suspended { .. } => true,
            _ => false,
        }
    }

    pub fn is_running(&self) -> (r: bool)
        ensures
            r == is_running(*self),
    {
        match self.state {
            ProgramState::Running { .. } => true,
            _ => false,
        }
    }

    pub fn is_idle_resident(&self) -> (r: bool)
        ensures
            r == is_idle_resident(*self),
    {
        match self.state {
            ProgramState::IdleResident { .. } => true,
            _ => false,
        }
    }

    pub fn pause_after_completion(&self) -> (r: bool)
        ensures
            r == is_marked(*self),
    {
        match self.state {
            ProgramState::Running { pause_after_completion, .. } => pause_after_completion,
            _ => false,
        }
    }

    pub fn retained_since(&self) -> (r: Option<u64>)
        ensures
            r == retained_since(*self),
    {
        match self.state {
            ProgramState::IdleResident { last_activity, .. } => Some(last_activity),
            ProgramState::Suspended { since, .. } => Some(since),
            ProgramState::Running { .. } => None,
        }
    }

    pub fn suspended_since(&self) -> (r: Option<u64>)
        ensures
            r == suspended_since(*self),
    {
        match self.state {
            ProgramState::Suspended { since, .. } => Some(since),
            _ => None,
        }
    }
}

} // verus!
