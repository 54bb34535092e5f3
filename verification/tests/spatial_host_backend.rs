//! The spatial context over a backend the host supplies.
use lumio_core::kernel::error::{error_of, ErrorCategory, KernelError, KernelResult};
use lumio_core::spatial::index::SpatialIndexBackend;
use lumio_core::spatial::query::{AabbQuery, SpatialContext, SpatialHit, SpatialQueryLimits};
use lumio_core::spatial::types::{Aabb3, Point3, SpatialObjectId};

/// Answers every query with two ids out of order, or fails once asked for them.
struct Backend {
    fail_on_fill: bool,
}

impl SpatialIndexBackend for Backend {
    fn upsert(&mut self, _id: SpatialObjectId, _aabb: Aabb3) -> KernelResult<()> {
        Ok(())
    }

    fn remove(&mut self, _id: SpatialObjectId) -> KernelResult<()> {
        Ok(())
    }

    fn query_aabb(&self, _aabb: Aabb3, out: &mut [SpatialObjectId]) -> KernelResult<usize> {
        if out.len() < 2 {
            return Err(KernelError::buffer_too_small(2, out.len() as u64));
        }
        if self.fail_on_fill {
            return Err(error_of(ErrorCategory::InternalInvariant));
        }
        out[0] = SpatialObjectId::from_raw(9);
        out[1] = SpatialObjectId::from_raw(3);
        Ok(2)
    }
}

fn unit_box() -> Aabb3 {
    let p = |v: f32| Point3::from_bits(v.to_bits(), v.to_bits(), v.to_bits()).unwrap();
    Aabb3::new(p(0.0), p(1.0)).unwrap()
}

fn hit(query_ordinal: u32, id: u64) -> SpatialHit {
    SpatialHit { query_ordinal, object_id: SpatialObjectId::from_raw(id) }
}

fn limits() -> SpatialQueryLimits {
    SpatialQueryLimits { max_queries: 4, max_hits: 16 }
}

#[test]
fn host_answers_are_staged_and_sorted() {
    let ctx = SpatialContext::with_backend(Backend { fail_on_fill: false }, limits());
    let queries = [AabbQuery { aabb: unit_box() }, AabbQuery { aabb: unit_box() }];
    let mut out = [hit(7, 7); 5];
    assert_eq!(ctx.query_aabb_batch(&queries, &mut out).unwrap(), 4);
    assert_eq!(out, [hit(0, 3), hit(0, 9), hit(1, 3), hit(1, 9), hit(7, 7)]);
}

#[test]
fn host_failure_after_sizing_leaves_out_untouched() {
    let ctx = SpatialContext::with_backend(Backend { fail_on_fill: true }, limits());
    let queries = [AabbQuery { aabb: unit_box() }];
    let mut out = [hit(7, 7); 3];
    let err = ctx.query_aabb_batch(&queries, &mut out).unwrap_err();
    assert_eq!(err.category(), ErrorCategory::InternalInvariant);
    assert_eq!(out, [hit(7, 7); 3]);
}

#[test]
fn empty_batch_needs_no_backend() {
    let ctx = SpatialContext::with_backend(Backend { fail_on_fill: true }, limits());
    let mut out = [hit(7, 7); 1];
    assert_eq!(ctx.query_aabb_batch(&[], &mut out).unwrap(), 0);
    assert_eq!(out, [hit(7, 7)]);
}
