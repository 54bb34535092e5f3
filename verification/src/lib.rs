//! Bounded native kernels: generational handles, a single-owner timer kernel,
//! a stateless hierarchical state machine evaluator, job scheduling, spatial
//! AABB queries and byte-limit policies.
#![allow(unused_imports)]

pub mod kernel;
pub mod timer;
pub mod job;
pub mod codec;
pub mod spatial;
pub mod hfsm;
