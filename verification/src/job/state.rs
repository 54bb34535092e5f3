//! Execution state of one job. Running cancellation is finalized only by the worker.
use vstd::prelude::*;

verus! {

#[derive(Clone, Copy, Debug, PartialEq, Eq, Structural)]
pub enum JobState {
    Queued,
    Running,
    Succeeded,
    Failed,
    Cancelled,
    TimedOut,
}

impl JobState {
    pub open spec fn spec_is_terminal(self) -> bool {
        self == JobState::Succeeded || self == JobState::Failed || self == JobState::Cancelled
    }

    pub fn is_terminal(self) -> (r: bool)
        ensures
            r == self.spec_is_terminal(),
    {
        match self {
            JobState::Succeeded | JobState::Failed | JobState::Cancelled => true,
            _ => false,
        }
    }
}

/// Outcome of starting a job in state `s`: the new state, or the state that refused it.
pub open spec fn spec_start(s: JobState) -> Result<JobState, JobState> {
    if s == JobState::Queued {
        Ok(JobState::Running)
    } else {
        Err(s)
    }
}

/// Outcome of cancelling in state `s`: the previous state, or the state that refused it.
pub open spec fn spec_cancel(s: JobState) -> Result<JobState, JobState> {
    if s == JobState::Queued || s == JobState::Running {
        Ok(s)
    } else {
        Err(s)
    }
}

/// Outcome of completing as `to` in state `s`.
pub open spec fn spec_complete(s: JobState, to: JobState) -> Result<JobState, JobState> {
    if (to == JobState::Succeeded || to == JobState::Failed) && s == JobState::Running {
        Ok(to)
    } else {
        Err(s)
    }
}

pub type JobStateCell = JobStateMachine;

/// One job's state with compare-and-set transitions.
pub struct JobStateMachine {
    state: JobState,
}

impl JobStateMachine {
    pub closed spec fn spec_state(&self) -> JobState {
        self.state
    }

    pub fn queued() -> (m: Self)
        ensures
            m.spec_state() == JobState::Queued,
    {
        JobStateMachine { state: JobState::Queued }
    }

    pub fn snapshot(&self) -> (s: JobState)
        ensures
            s == self.spec_state(),
    {
        self.state
    }

    /// Queued becomes Running; any other state refuses and is returned.
    pub fn cas_start(&mut self) -> (r: Result<(), JobState>)
        ensures
            match spec_start(old(self).spec_state()) {
                Ok(n) => r is Ok && final(self).spec_state() == n,
                Err(s) => r == Err::<(), JobState>(s) && final(self).spec_state() == old(self).spec_state(),
            },
    {
        if self.state == JobState::Queued {
            self.state = JobState::Running;
            Ok(())
        } else {
            Err(self.state)
        }
    }

    /// Terminal transition for queued work or a worker's acknowledged cancel point.
    /// A client cancelling running work must set the request token, not call this.
    pub fn cas_cancel(&mut self) -> (r: Result<JobState, JobState>)
        ensures
            r == spec_cancel(old(self).spec_state()),
            r is Ok ==> final(self).spec_state() == JobState::Cancelled,
            r is Err ==> final(self).spec_state() == old(self).spec_state(),
    {
        let current = self.state;
        if current == JobState::Queued || current == JobState::Running {
            self.state = JobState::Cancelled;
            Ok(current)
        } else {
            Err(current)
        }
    }

    /// Running becomes Succeeded or Failed; anything else refuses.
    pub fn cas_complete(&mut self, to: JobState) -> (r: Result<(), JobState>)
        ensures
            match spec_complete(old(self).spec_state(), to) {
                Ok(n) => r is Ok && final(self).spec_state() == n,
                Err(s) => r == Err::<(), JobState>(s) && final(self).spec_state() == old(self).spec_state(),
            },
    {
        if !(to == JobState::Succeeded || to == JobState::Failed) {
            return Err(self.state);
        }
        if self.state == JobState::Running {
            self.state = to;
            Ok(())
        } else {
            Err(self.state)
        }
    }
}

/// A terminal state is final: starting, cancelling and completing all refuse it
/// and report it unchanged.
pub proof fn terminal_states_are_final(s: JobState, to: JobState)
    requires
        s.spec_is_terminal(),
    ensures
        spec_start(s) == Err::<JobState, JobState>(s),
        spec_cancel(s) == Err::<JobState, JobState>(s),
        spec_complete(s, to) == Err::<JobState, JobState>(s),
{
}

/// Every successful transition moves forward: a job is started at most once,
/// and only queued or running work can end up cancelled.
pub proof fn transitions_only_move_forward(s: JobState, to: JobState)
    ensures
        spec_start(s) is Ok ==> s == JobState::Queued,
        spec_complete(s, to) is Ok ==> s == JobState::Running && spec_complete(s, to)->Ok_0.spec_is_terminal(),
        spec_cancel(s) is Ok ==> !s.spec_is_terminal(),
{
}

} // verus!
