//! Kernel error categories and structured details.
use vstd::prelude::*;

verus! {

/// Coarse failure class shared by every kernel component.
#[derive(Clone, Copy, Debug, PartialEq, Eq, Structural)]
pub enum ErrorCategory {
    InvalidArgument,
    InvalidHandle,
    AlreadyReleased,
    WrongContext,
    CapacityExceeded,
    BufferTooSmall,
    CapabilityUnavailable,
    ContextClosing,
    ContextDestroyed,
    Cancelled,
    TimedOut,
    InternalInvariant,
    PanicBoundary,
}

/// Structured detail attached to a [`KernelError`].
#[derive(Clone, Copy, Debug, PartialEq, Eq)]
pub enum ErrorDetail {
    NoDetail,
    LimitExceeded { limit: u64, requested: u64 },
    RequiredCapacity { required: u64, provided: u64 },
    StaticMessage(&'static str),
}

/// A category plus optional structured detail.
#[derive(Clone, Copy, Debug, PartialEq, Eq)]
pub struct KernelError {
    pub category: ErrorCategory,
    pub detail: ErrorDetail,
}

pub type KernelResult<T> = Result<T, KernelError>;

impl KernelError {
    pub fn new(category: ErrorCategory, detail: ErrorDetail) -> (e: Self)
        ensures
            e.category == category,
            e.detail == detail,
    {
        KernelError { category, detail }
    }

    /// `BufferTooSmall` carrying how many slots are needed and how many were given.
    pub fn buffer_too_small(required: u64, provided: u64) -> (e: Self)
        ensures
            e.category == ErrorCategory::BufferTooSmall,
            e.detail == (ErrorDetail::RequiredCapacity { required, provided }),
    {
        KernelError {
            category: ErrorCategory::BufferTooSmall,
            detail: ErrorDetail::RequiredCapacity { required, provided },
        }
    }

    pub fn category(&self) -> (c: ErrorCategory)
        ensures
            c == self.category,
    {
        self.category
    }

    pub fn detail(&self) -> (d: &ErrorDetail)
        ensures
            *d == self.detail,
    {
        &self.detail
    }
}

/// A `KernelError` with no detail.
pub fn error_of(category: ErrorCategory) -> (e: KernelError)
    ensures
        e.category == category,
        e.detail == ErrorDetail::NoDetail,
{
    KernelError { category, detail: ErrorDetail::NoDetail }
}

} // verus!
