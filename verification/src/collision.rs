//! Circle geometry on the ground plane. Every object is a circle around its
//! position; height plays no part.

use vstd::prelude::*;
use crate::registry::clamped_radius;
use crate::registry::MIN_HOVER_RADIUS;
use crate::units::dist_sq;
use crate::units::WorldPos;
use crate::units::WorldXz;

verus! {

/// Two circles overlap when their centers are no further apart than the sum
/// of their radii. Circles that only touch do overlap.
pub open spec fn overlaps(a: WorldXz, ar: int, b: WorldXz, br: int) -> bool {
    dist_sq(a, b) <= (ar + br) * (ar + br)
}

/// A point is in a circle when it is no further from the center than the
/// radius. The rim belongs to the circle.
pub open spec fn contains_point(center: WorldXz, radius: int, p: WorldXz) -> bool {
    dist_sq(p, center) <= radius * radius
}

/// Overlap is decided by the distance of the centers alone: at squared
/// distance `(ar + br)^2` or less the circles overlap, beyond it they do not.
pub proof fn lemma_overlap_is_inclusive(a: WorldXz, ar: int, b: WorldXz, br: int)
    ensures
        dist_sq(a, b) == (ar + br) * (ar + br) ==> overlaps(a, ar, b, br),
        dist_sq(a, b) > (ar + br) * (ar + br) ==> !overlaps(a, ar, b, br),
        overlaps(a, ar, b, br) == overlaps(b, br, a, ar),
{
    assert((a.x - b.x) * (a.x - b.x) == (b.x - a.x) * (b.x - a.x)) by (nonlinear_arith);
    assert((a.z - b.z) * (a.z - b.z) == (b.z - a.z) * (b.z - a.z)) by (nonlinear_arith);
    assert((ar + br) * (ar + br) == (br + ar) * (br + ar));
}

/// The radius that the geometric tests use for an object type: its hover
/// radius, held at `MIN_HOVER_RADIUS` or above.
pub fn collision_radius(hover_radius: i32) -> (r: i32)
    ensures
        r == clamped_radius(hover_radius as int),
        r >= MIN_HOVER_RADIUS,
{
    if hover_radius >= MIN_HOVER_RADIUS {
        hover_radius
    } else {
        MIN_HOVER_RADIUS
    }
}

/// Squared distance of two positions on the ground plane.
pub fn distance_squared(a: WorldPos, b: WorldPos) -> (d: i128)
    ensures
        d == dist_sq(a.xz(), b.xz()),
        0 <= d <= 0x2_0000_0000_0000_0000,
{
    let dx: i128 = a.x as i128 - b.x as i128;
    let dz: i128 = a.z as i128 - b.z as i128;
    assert(0 <= dx * dx <= 0x1_0000_0000_0000_0000) by (nonlinear_arith)
        requires
            -0x1_0000_0000 <= dx <= 0x1_0000_0000,
    ;
    assert(0 <= dz * dz <= 0x1_0000_0000_0000_0000) by (nonlinear_arith)
        requires
            -0x1_0000_0000 <= dz <= 0x1_0000_0000,
    ;
    dx * dx + dz * dz
}

/// Whether two objects overlap, by their circles on the ground plane.
pub fn circles_overlap(a: WorldPos, ar: i32, b: WorldPos, br: i32) -> (hit: bool)
    ensures
        hit == overlaps(a.xz(), ar as int, b.xz(), br as int),
{
    let r: i128 = ar as i128 + br as i128;
    assert(0 <= r * r <= 0x1_0000_0000_0000_0000) by (nonlinear_arith)
        requires
            -0x1_0000_0000 <= r <= 0x1_0000_0000,
    ;
    distance_squared(a, b) <= r * r
}

/// Whether a point lies in the circle of an object.
pub fn point_in_circle(p: WorldPos, center: WorldPos, radius: i32) -> (b: bool)
    ensures
        b == contains_point(center.xz(), radius as int, p.xz()),
{
    let r: i128 = radius as i128;
    assert(0 <= r * r <= 0x1_0000_0000_0000_0000) by (nonlinear_arith)
        requires
            -0x1_0000_0000 <= r <= 0x1_0000_0000,
    ;
    distance_squared(p, center) <= r * r
}

} // verus!
