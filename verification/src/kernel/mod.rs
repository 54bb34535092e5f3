//! Handles, error vocabulary and context resource bookkeeping.
pub mod error;
pub mod handle;
pub mod context;
pub mod capability;
pub mod lifecycle;
pub mod registry;
pub mod memory;
