//! Job and operation identities.
use vstd::prelude::*;

verus! {

/// Process-unique job id, issued in increasing order.
#[derive(Clone, Copy, Debug, PartialEq, Eq, Hash, PartialOrd, Ord, Structural)]
pub struct JobId(pub u64);

impl JobId {
    pub fn from_raw(raw: u64) -> (j: Self)
        ensures
            j.0 == raw,
    {
        JobId(raw)
    }

    pub fn raw(self) -> (r: u64)
        ensures
            r == self.0,
    {
        self.0
    }
}

/// Identity of an executable operation kernel.
#[derive(Clone, Copy, Debug, PartialEq, Eq, Hash, PartialOrd, Ord, Structural)]
pub struct OperationId(pub u32);

impl OperationId {
    pub fn from_raw(raw: u32) -> (o: Self)
        ensures
            o.0 == raw,
    {
        OperationId(raw)
    }

    pub fn raw(self) -> (r: u32)
        ensures
            r == self.0,
    {
        self.0
    }
}

} // verus!
