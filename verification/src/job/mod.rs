//! Bounded job execution: identities, the per-job state machine, the completion
//! buffer and the scheduler's bookkeeping.
pub mod id;
pub mod state;
pub mod completion;
pub mod scheduler;
