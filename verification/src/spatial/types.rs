//! Object ids, points and axis-aligned boxes.
//!
//! Coordinates are IEEE-754 single-precision values held as their bit patterns.
//! Only finite values are admitted; for finite values `ord_key` orders bit
//! patterns exactly as the numbers they encode (and maps `-0.0` and `+0.0` to
//! the same key), so every comparison below is the floating-point comparison.
use vstd::prelude::*;
use crate::kernel::error::{ErrorCategory, ErrorDetail, KernelError, KernelResult};

verus! {

#[derive(Clone, Copy, Debug, PartialEq, Eq, Hash, PartialOrd, Ord, Structural)]
pub struct SpatialObjectId(pub u64);

impl SpatialObjectId {
    pub fn from_raw(raw: u64) -> (s: Self)
        ensures
            s.0 == raw,
    {
        SpatialObjectId(raw)
    }

    pub fn raw(self) -> (r: u64)
        ensures
            r == self.0,
    {
        self.0
    }
}

pub const SIGN_BIT: u32 = 0x8000_0000;
/// Magnitude bits of the first non-finite pattern (infinity).
pub const INFINITY_MAGNITUDE: u32 = 0x7f80_0000;

/// Whether bit pattern `b` encodes a finite number (not infinite, not NaN).
pub open spec fn finite_bits(b: u32) -> bool {
    (if b >= SIGN_BIT { b - SIGN_BIT } else { b as int }) < INFINITY_MAGNITUDE
}

/// Order key of a finite bit pattern: the signed magnitude.
pub open spec fn ord_key(b: u32) -> int {
    if b >= SIGN_BIT {
        -(b - SIGN_BIT)
    } else {
        b as int
    }
}

pub fn is_finite_bits(b: u32) -> (r: bool)
    ensures
        r == finite_bits(b),
{
    let magnitude = if b >= SIGN_BIT { b - SIGN_BIT } else { b };
    magnitude < INFINITY_MAGNITUDE
}

pub fn key_of(b: u32) -> (k: i64)
    ensures
        k == ord_key(b),
{
    if b >= SIGN_BIT {
        -((b - SIGN_BIT) as i64)
    } else {
        b as i64
    }
}

/// A point whose coordinates are single-precision bit patterns.
#[derive(Clone, Copy, Debug, PartialEq, Eq, Structural)]
pub struct Point3 {
    pub x: u32,
    pub y: u32,
    pub z: u32,
}

impl Point3 {
    pub open spec fn spec_finite(self) -> bool {
        finite_bits(self.x) && finite_bits(self.y) && finite_bits(self.z)
    }

    /// A point from the bit patterns of its coordinates; refused unless all are finite.
    pub fn from_bits(x: u32, y: u32, z: u32) -> (r: KernelResult<Self>)
        ensures
            (finite_bits(x) && finite_bits(y) && finite_bits(z)) ==> r == Ok::<Point3, KernelError>(Point3 { x, y, z }),
            !(finite_bits(x) && finite_bits(y) && finite_bits(z)) ==> (r matches Err(e) && e.category == ErrorCategory::InvalidArgument),
    {
        if is_finite_bits(x) && is_finite_bits(y) && is_finite_bits(z) {
            Ok(Point3 { x, y, z })
        } else {
            Err(KernelError::new(ErrorCategory::InvalidArgument, ErrorDetail::NoDetail))
        }
    }
}

/// Axis-aligned box from `min` to `max`, inclusive.
#[derive(Clone, Copy, Debug, PartialEq, Eq, Structural)]
pub struct Aabb3 {
    pub min: Point3,
    pub max: Point3,
}

impl Aabb3 {
    /// Finite corners with `min <= max` on every axis.
    pub open spec fn spec_valid(self) -> bool {
        &&& self.min.spec_finite()
        &&& self.max.spec_finite()
        &&& ord_key(self.min.x) <= ord_key(self.max.x)
        &&& ord_key(self.min.y) <= ord_key(self.max.y)
        &&& ord_key(self.min.z) <= ord_key(self.max.z)
    }

    pub fn new(min: Point3, max: Point3) -> (r: KernelResult<Self>)
        ensures
            (Aabb3 { min, max }).spec_valid() ==> r == Ok::<Aabb3, KernelError>(Aabb3 { min, max }),
            !(Aabb3 { min, max }).spec_valid() ==> (r matches Err(e) && e.category == ErrorCategory::InvalidArgument),
    {
        let b = Aabb3 { min, max };
        b.validate()?;
        Ok(b)
    }

    pub fn validate(&self) -> (r: KernelResult<()>)
        ensures
            self.spec_valid() ==> r is Ok,
            !self.spec_valid() ==> (r matches Err(e) && e.category == ErrorCategory::InvalidArgument
                && e.detail == ErrorDetail::NoDetail),
    {
        let finite = is_finite_bits(self.min.x) && is_finite_bits(self.min.y) && is_finite_bits(self.min.z)
            && is_finite_bits(self.max.x) && is_finite_bits(self.max.y) && is_finite_bits(self.max.z);
        if !finite {
            return Err(KernelError::new(ErrorCategory::InvalidArgument, ErrorDetail::NoDetail));
        }
        if key_of(self.min.x) > key_of(self.max.x) || key_of(self.min.y) > key_of(self.max.y)
            || key_of(self.min.z) > key_of(self.max.z) {
            return Err(KernelError::new(ErrorCategory::InvalidArgument, ErrorDetail::NoDetail));
        }
        Ok(())
    }
}

/// Closed boxes `a` and `b` share at least one point.
pub open spec fn spec_overlaps(a: Aabb3, b: Aabb3) -> bool {
    !(ord_key(a.max.x) < ord_key(b.min.x) || ord_key(b.max.x) < ord_key(a.min.x)
        || ord_key(a.max.y) < ord_key(b.min.y) || ord_key(b.max.y) < ord_key(a.min.y)
        || ord_key(a.max.z) < ord_key(b.min.z) || ord_key(b.max.z) < ord_key(a.min.z))
}

pub fn overlaps(a: Aabb3, b: Aabb3) -> (r: bool)
    ensures
        r == spec_overlaps(a, b),
{
    !(key_of(a.max.x) < key_of(b.min.x) || key_of(b.max.x) < key_of(a.min.x)
        || key_of(a.max.y) < key_of(b.min.y) || key_of(b.max.y) < key_of(a.min.y)
        || key_of(a.max.z) < key_of(b.min.z) || key_of(b.max.z) < key_of(a.min.z))
}

/// Order keys order bit patterns as the numbers they encode: among patterns with the
/// sign bit clear a larger pattern is a larger number; among patterns with it set a
/// larger pattern is a smaller number; every negative pattern but `-0.0` lies below
/// every non-negative one, and `-0.0` and `+0.0` are the same number.
pub proof fn law_order_keys_follow_the_numbers(a: u32, b: u32)
    ensures
        a < SIGN_BIT && b < SIGN_BIT ==> (ord_key(a) < ord_key(b) <==> a < b),
        a >= SIGN_BIT && b >= SIGN_BIT ==> (ord_key(a) < ord_key(b) <==> a > b),
        a > SIGN_BIT && b < SIGN_BIT ==> ord_key(a) < ord_key(b),
        ord_key(SIGN_BIT) == ord_key(0),
        ord_key(a) == ord_key(b) <==> (a == b || (a == SIGN_BIT && b == 0) || (a == 0 && b == SIGN_BIT)),
{
}

/// The point whose coordinates have order keys `px`, `py`, `pz` lies in the closed
/// box `b`: on every axis it is no lower than the box's low corner and no higher than
/// its high corner.
pub open spec fn holds_point(b: Aabb3, px: int, py: int, pz: int) -> bool {
    &&& ord_key(b.min.x) <= px <= ord_key(b.max.x)
    &&& ord_key(b.min.y) <= py <= ord_key(b.max.y)
    &&& ord_key(b.min.z) <= pz <= ord_key(b.max.z)
}

/// Some point lies in both boxes.
pub open spec fn share_a_point(a: Aabb3, b: Aabb3) -> bool {
    exists|px: int, py: int, pz: int| #![trigger holds_point(a, px, py, pz), holds_point(b, px, py, pz)]
        holds_point(a, px, py, pz) && holds_point(b, px, py, pz)
}

/// Overlap of closed boxes means a shared point: two boxes that have a point in
/// common always overlap, and two valid boxes overlap only when they have one. So
/// boxes apart on any single axis (x, y or z) never overlap.
pub proof fn law_overlap_is_a_shared_point(a: Aabb3, b: Aabb3)
    ensures
        share_a_point(a, b) ==> spec_overlaps(a, b),
        a.spec_valid() && b.spec_valid() ==> (spec_overlaps(a, b) <==> share_a_point(a, b)),
{
    if share_a_point(a, b) {
        let (px, py, pz) = choose|px: int, py: int, pz: int| #![trigger holds_point(a, px, py, pz), holds_point(b, px, py, pz)]
            holds_point(a, px, py, pz) && holds_point(b, px, py, pz);
        assert(holds_point(a, px, py, pz) && holds_point(b, px, py, pz));
    }
    if a.spec_valid() && b.spec_valid() && spec_overlaps(a, b) {
        let px = if ord_key(a.min.x) < ord_key(b.min.x) { ord_key(b.min.x) } else { ord_key(a.min.x) };
        let py = if ord_key(a.min.y) < ord_key(b.min.y) { ord_key(b.min.y) } else { ord_key(a.min.y) };
        let pz = if ord_key(a.min.z) < ord_key(b.min.z) { ord_key(b.min.z) } else { ord_key(a.min.z) };
        assert(holds_point(a, px, py, pz) && holds_point(b, px, py, pz));
    }
}

/// Overlap is symmetric.
pub proof fn overlap_is_symmetric(a: Aabb3, b: Aabb3)
    ensures
        spec_overlaps(a, b) == spec_overlaps(b, a),
{
}

/// A valid box overlaps itself.
pub proof fn valid_box_overlaps_itself(a: Aabb3)
    requires
        a.spec_valid(),
    ensures
        spec_overlaps(a, a),
{
}

} // verus!
