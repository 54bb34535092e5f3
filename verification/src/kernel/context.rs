//! Context resource vocabulary: deadlines, cancellation reasons and quiesce reports.
use vstd::prelude::*;
use crate::kernel::error::KernelResult;

verus! {

/// A point on the owner's monotonic millisecond clock, or no deadline.
#[derive(Clone, Copy, Debug, PartialEq, Eq, Structural)]
pub struct Deadline {
    pub at_ms: Option<u64>,
}

impl Deadline {
    pub fn none() -> (d: Self)
        ensures
            d.at_ms is None,
    {
        Deadline { at_ms: None }
    }

    pub fn at(ms: u64) -> (d: Self)
        ensures
            d.at_ms == Some(ms),
    {
        Deadline { at_ms: Some(ms) }
    }

    pub open spec fn spec_is_expired(self, now_ms: u64) -> bool {
        match self.at_ms {
            Some(t) => now_ms >= t,
            None => false,
        }
    }

    /// A deadline has passed once the clock reaches it; no deadline never passes.
    pub fn is_expired(self, now_ms: u64) -> (r: bool)
        ensures
            r == self.spec_is_expired(now_ms),
    {
        match self.at_ms {
            Some(t) => now_ms >= t,
            None => false,
        }
    }
}

#[derive(Clone, Copy, Debug, PartialEq, Eq, Structural)]
pub enum CancelReason {
    ContextClosing,
    HostRequest,
}

#[derive(Clone, Copy, Debug, PartialEq, Eq, Structural)]
pub enum QuiesceState {
    Quiesced,
    Pending { remaining: u32 },
}

#[derive(Clone, Copy, Debug, PartialEq, Eq, Structural)]
pub struct QuiesceReport {
    pub state: QuiesceState,
}

/// Something a context owns and tears down when it closes. Implemented by the host;
/// the close machine in `lifecycle` decides which of these calls is made and when.
pub trait ContextResource {
    fn name(&self) -> &'static str;

    fn cancel_requested(&self, reason: CancelReason);

    fn quiesce(&self, deadline: Deadline) -> KernelResult<QuiesceReport>;

    fn destroy(&self) -> KernelResult<()>;
}

} // verus!
