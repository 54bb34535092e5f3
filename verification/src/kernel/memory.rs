//! A context's byte budget: reservations are charged against a fixed limit.
use vstd::prelude::*;
use crate::kernel::error::{ErrorCategory, ErrorDetail, KernelError, KernelResult};

verus! {

pub struct MemoryBudget {
    limit: u64,
    charged: u64,
}

impl MemoryBudget {
    pub closed spec fn spec_limit(&self) -> u64 {
        self.limit
    }

    pub closed spec fn spec_charged(&self) -> u64 {
        self.charged
    }

    pub closed spec fn wf(&self) -> bool {
        self.charged <= self.limit
    }

    pub fn new(limit: u64) -> (b: Self)
        ensures
            b.wf(),
            b.spec_limit() == limit,
            b.spec_charged() == 0,
    {
        MemoryBudget { limit, charged: 0 }
    }

    /// Charges `bytes` if they fit in what is left of the limit.
    pub fn try_reserve(&mut self, bytes: u64) -> (r: KernelResult<()>)
        requires
            old(self).wf(),
        ensures
            final(self).wf(),
            final(self).spec_limit() == old(self).spec_limit(),
            old(self).spec_charged() + bytes <= old(self).spec_limit() ==> r is Ok
                && final(self).spec_charged() == old(self).spec_charged() + bytes,
            old(self).spec_charged() + bytes > old(self).spec_limit() ==> r == Err::<(), KernelError>(
                KernelError {
                    category: ErrorCategory::CapacityExceeded,
                    detail: ErrorDetail::LimitExceeded {
                        limit: old(self).spec_limit(),
                        requested: if old(self).spec_charged() + bytes > u64::MAX {
                            u64::MAX
                        } else {
                            (old(self).spec_charged() + bytes) as u64
                        },
                    },
                },
            ) && final(self).spec_charged() == old(self).spec_charged(),
    {
        if bytes > self.limit - self.charged {
            return Err(
                KernelError {
                    category: ErrorCategory::CapacityExceeded,
                    detail: ErrorDetail::LimitExceeded {
                        limit: self.limit,
                        requested: self.charged.saturating_add(bytes),
                    },
                },
            );
        }
        self.charged = self.charged + bytes;
        Ok(())
    }

    /// Returns `bytes` to the budget; more than is charged empties it.
    pub fn release(&mut self, bytes: u64)
        requires
            old(self).wf(),
        ensures
            final(self).wf(),
            final(self).spec_limit() == old(self).spec_limit(),
            final(self).spec_charged() == if bytes <= old(self).spec_charged() {
                (old(self).spec_charged() - bytes) as u64
            } else {
                0
            },
    {
        self.charged = self.charged.saturating_sub(bytes);
    }

    pub fn charged(&self) -> (n: u64)
        ensures
            n == self.spec_charged(),
    {
        self.charged
    }

    pub fn limit(&self) -> (n: u64)
        ensures
            n == self.spec_limit(),
    {
        self.limit
    }
}

} // verus!
