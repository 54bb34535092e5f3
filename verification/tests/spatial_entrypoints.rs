use lumio_core::kernel::error::{ErrorCategory, ErrorDetail};
use lumio_core::spatial::index::{GridReferenceIndex, SpatialIndexBackend};
use lumio_core::spatial::query::{AabbQuery, SpatialContext, SpatialHit, SpatialQueryLimits};
use lumio_core::spatial::types::{Aabb3, Point3, SpatialObjectId};

fn point(x: f32, y: f32, z: f32) -> Point3 {
    Point3::from_bits(x.to_bits(), y.to_bits(), z.to_bits()).unwrap()
}

fn bounds() -> Aabb3 {
    Aabb3::new(point(0.0, 0.0, 0.0), point(1.0, 1.0, 1.0)).unwrap()
}

fn aabb(min: (f32, f32, f32), max: (f32, f32, f32)) -> Aabb3 {
    Aabb3::new(point(min.0, min.1, min.2), point(max.0, max.1, max.2)).expect("finite AABB")
}

fn id(v: u64) -> SpatialObjectId {
    SpatialObjectId::from_raw(v)
}

fn hit(query_ordinal: u32, object_id: u64) -> SpatialHit {
    SpatialHit {
        query_ordinal,
        object_id: id(object_id),
    }
}

#[test]
fn literal_nan_and_inverted_boxes_are_rejected_by_insert_and_query() {
    let bad = [
        Aabb3 {
            min: Point3 {
                x: f32::NAN.to_bits(),
                y: 0.0f32.to_bits(),
                z: 0.0f32.to_bits(),
            },
            max: bounds().max,
        },
        Aabb3 {
            min: bounds().max,
            max: bounds().min,
        },
    ];
    let mut context = SpatialContext::new();
    context.upsert(SpatialObjectId::from_raw(1), bounds()).unwrap();
    let sentinel = SpatialHit {
        query_ordinal: 99,
        object_id: SpatialObjectId::from_raw(99),
    };
    for aabb in bad {
        assert_eq!(
            context
                .upsert(SpatialObjectId::from_raw(2), aabb)
                .unwrap_err()
                .category(),
            ErrorCategory::InvalidArgument
        );
        let mut out = [sentinel];
        assert_eq!(
            context
                .query_aabb_batch(&[AabbQuery { aabb }], &mut out)
                .unwrap_err()
                .category(),
            ErrorCategory::InvalidArgument
        );
        assert_eq!(out, [sentinel]);
    }
}

#[test]
fn result_budget_precedes_staging_and_preserves_out() {
    let mut context = SpatialContext::with_backend(
        GridReferenceIndex::new(),
        SpatialQueryLimits {
            max_queries: 2,
            max_hits: 1,
        },
    );
    for id in [1, 2] {
        context.upsert(SpatialObjectId::from_raw(id), bounds()).unwrap();
    }
    let sentinel = SpatialHit {
        query_ordinal: 99,
        object_id: SpatialObjectId::from_raw(99),
    };
    let mut out = [sentinel; 2];
    assert_eq!(
        context
            .query_aabb_batch(&[AabbQuery { aabb: bounds() }], &mut out)
            .unwrap_err()
            .category(),
        ErrorCategory::CapacityExceeded
    );
    assert_eq!(out, [sentinel; 2]);
}

#[test]
fn reference_capacity_is_live_objects_not_history() {
    let mut index = GridReferenceIndex::with_capacity(1);
    for id in 0..1000 {
        let id = SpatialObjectId::from_raw(id);
        index.upsert(id, bounds()).unwrap();
        assert_eq!(
            index
                .upsert(SpatialObjectId::from_raw(1001), bounds())
                .unwrap_err()
                .category(),
            ErrorCategory::CapacityExceeded
        );
        index.remove(id).unwrap();
    }
}

#[test]
fn undersized_output_reports_required_without_overwrite() {
    let mut ctx = SpatialContext::new();
    ctx.upsert(id(30), aabb((0.0, 0.0, 0.0), (2.0, 2.0, 2.0))).expect("upsert 30");
    ctx.upsert(id(10), aabb((1.0, 1.0, 1.0), (3.0, 3.0, 3.0))).expect("upsert 10");
    ctx.upsert(id(20), aabb((1.5, 1.5, 1.5), (1.5, 1.5, 1.5))).expect("upsert 20");
    ctx.upsert(id(99), aabb((100.0, 100.0, 100.0), (101.0, 101.0, 101.0))).expect("upsert 99");

    let queries = [AabbQuery {
        aabb: aabb((0.0, 0.0, 0.0), (3.0, 3.0, 3.0)),
    }];
    let sentinel = hit(0xFFFF_FFFF, 0xDEAD);
    let mut out = [sentinel];

    let err = ctx
        .query_aabb_batch(&queries, &mut out)
        .expect_err("undersized out must not overflow");
    assert_eq!(err.category(), ErrorCategory::BufferTooSmall);
    match err.detail() {
        ErrorDetail::RequiredCapacity { required, provided } => {
            assert!(*required >= 2, "one overlapping AABB query needs N>1 hits, required={required}");
            assert_eq!(*provided, 1);
        }
        other => panic!("unexpected detail: {other:?}"),
    }
    assert_eq!(out[0], sentinel, "overflow must leave out slots unchanged");

    let mut large = [sentinel; 8];
    let n = ctx.query_aabb_batch(&queries, &mut large).expect("sized out must succeed");
    let hits = &large[..n];
    assert_eq!(hits, &[hit(0, 10), hit(0, 20), hit(0, 30)]);
    let mut sorted = hits.to_vec();
    sorted.sort();
    assert_eq!(hits, sorted.as_slice(), "hits must sort by (query_ordinal, object_id)");
    assert_eq!(large[n], sentinel, "unused slots stay untouched");
}

#[test]
fn negative_zero_and_positive_zero_overlap() {
    let a = aabb((-0.0, -0.0, -0.0), (0.0, 0.0, 0.0));
    let b = aabb((0.0, 0.0, 0.0), (1.0, 1.0, 1.0));
    assert!(lumio_core::spatial::types::overlaps(a, b));
    assert!(lumio_core::spatial::types::overlaps(b, a));
}

#[test]
fn infinite_coordinates_are_rejected() {
    let err = Point3::from_bits(f32::INFINITY.to_bits(), 0, 0).unwrap_err();
    assert_eq!(err.category(), ErrorCategory::InvalidArgument);
}

#[test]
fn reference_query_reports_exactly_the_overlapping_objects() {
    let mut index = GridReferenceIndex::with_capacity(4);
    index.upsert(id(7), aabb((0.0, 0.0, 0.0), (1.0, 1.0, 1.0))).unwrap();
    index.upsert(id(3), aabb((0.5, 0.5, 0.5), (2.0, 2.0, 2.0))).unwrap();
    index.upsert(id(9), aabb((5.0, 5.0, 5.0), (6.0, 6.0, 6.0))).unwrap();
    let query = aabb((0.9, 0.9, 0.9), (1.1, 1.1, 1.1));
    let mut out = [id(0); 4];
    assert_eq!(index.query_aabb(query, &mut out).unwrap(), 2);
    assert_eq!(&out[..2], &[id(3), id(7)]);
    index.remove(id(3)).unwrap();
    assert_eq!(index.query_aabb(query, &mut out).unwrap(), 1);
    assert_eq!(out[0], id(7));
    index.upsert(id(7), aabb((8.0, 8.0, 8.0), (9.0, 9.0, 9.0))).unwrap();
    assert_eq!(index.query_aabb(query, &mut out).unwrap(), 0);
}

#[test]
fn context_runs_on_the_backend_it_is_given() {
    let mut ctx = SpatialContext::with_backend(
        GridReferenceIndex::with_capacity(1),
        SpatialQueryLimits { max_queries: 2, max_hits: 4 },
    );
    ctx.upsert(id(5), aabb((0.0, 0.0, 0.0), (1.0, 1.0, 1.0))).unwrap();
    assert_eq!(
        ctx.upsert(id(6), aabb((0.0, 0.0, 0.0), (1.0, 1.0, 1.0))).unwrap_err().category(),
        ErrorCategory::CapacityExceeded
    );
    let queries = [AabbQuery { aabb: aabb((0.5, 0.5, 0.5), (2.0, 2.0, 2.0)) }];
    let mut out = [hit(9, 9); 2];
    assert_eq!(ctx.query_aabb_batch(&queries, &mut out).unwrap(), 1);
    assert_eq!(out[0], hit(0, 5));
    let three = [queries[0]; 3];
    assert_eq!(
        ctx.query_aabb_batch(&three, &mut out).unwrap_err().category(),
        ErrorCategory::CapacityExceeded
    );
}
