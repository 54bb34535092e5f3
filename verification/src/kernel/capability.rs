//! Limits a context is configured with.
use vstd::prelude::*;
use crate::kernel::context::Deadline;
use crate::kernel::error::{ErrorCategory, ErrorDetail, KernelError, KernelResult};

verus! {

/// Upper bounds on what one context may hold.
#[derive(Clone, Copy, Debug, PartialEq, Eq, Structural)]
pub struct ConfiguredLimits {
    pub max_handles: u32,
    pub max_native_bytes: u64,
    pub max_jobs_queued: u32,
    pub max_jobs_running: u32,
    pub max_completion_items: u32,
}

/// What a context is created with.
#[derive(Clone, Copy, Debug, PartialEq, Eq, Structural)]
pub struct ContextConfig {
    pub limits: ConfiguredLimits,
    /// Used by a close pass that is given no deadline of its own.
    pub quiesce_deadline: Deadline,
}

impl ConfiguredLimits {
    /// Every ceiling is non-zero.
    pub open spec fn spec_valid(self) -> bool {
        &&& self.max_handles != 0
        &&& self.max_native_bytes != 0
        &&& self.max_jobs_queued != 0
        &&& self.max_jobs_running != 0
        &&& self.max_completion_items != 0
    }
}

impl ContextConfig {
    /// A context needs every ceiling non-zero; otherwise the configuration is an
    /// invalid argument.
    pub fn validate(&self) -> (r: KernelResult<()>)
        ensures
            self.limits.spec_valid() ==> r is Ok,
            !self.limits.spec_valid() ==> r == Err::<(), KernelError>(
                KernelError { category: ErrorCategory::InvalidArgument, detail: ErrorDetail::NoDetail },
            ),
    {
        let l = self.limits;
        if l.max_handles == 0 || l.max_native_bytes == 0 || l.max_jobs_queued == 0 || l.max_jobs_running == 0
            || l.max_completion_items == 0 {
            return Err(KernelError::new(ErrorCategory::InvalidArgument, ErrorDetail::NoDetail));
        }
        Ok(())
    }
}

} // verus!
