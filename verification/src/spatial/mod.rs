//! Bounded AABB spatial kernels: coordinates, the reference index and
//! capacity-first batch queries.
pub mod types;
pub mod index;
pub mod query;
pub mod resource;
