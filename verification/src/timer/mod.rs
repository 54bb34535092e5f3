//! Domain-neutral single-owner timer kernel: scopes, callback slots, one-shot and
//! repeating timers, bounded catch-up and ordered delivery.
pub mod error;
pub mod ids;
pub mod fixtures;
pub mod manager;
pub mod laws;
