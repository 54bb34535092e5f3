//! Timer failure codes.
use vstd::prelude::*;

verus! {

#[derive(Clone, Copy, Debug, PartialEq, Eq, Structural)]
pub enum TimerError {
    InvalidInterval,
    InvalidDueTick,
    ScheduleBudgetExceeded,
    ScopeInvalid,
    ScopeGenerationMismatch,
    SlotUnbound,
    SlotClosed,
    SlotDispatchMismatch,
    SlotQueueFull,
    StaleHandle,
    LateCompletion,
    ManagerShutdown,
}

pub type TimerResult<T> = Result<T, TimerError>;

} // verus!
