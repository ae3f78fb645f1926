//! Bounding boxes of models, and what placement derives from them: where the
//! visual sits on its object, and how large the object's circle is.

use vstd::prelude::*;
use crate::registry::Scale3;
use crate::registry::MIN_HOVER_RADIUS;
use crate::units::floor_div_spec;
use crate::units::floor_div_wide;
use crate::units::lemma_floor_div_bounds;
use crate::units::WorldOffset;
use crate::units::WorldPos;
use crate::units::UNITS_PER_WORLD_UNIT;

verus! {

/// An axis-aligned box, by its corners of least and of greatest coordinates.
#[derive(Clone, Copy, Debug, PartialEq, Eq, Structural)]
pub struct GltfBounds {
    pub min: WorldPos,
    pub max: WorldPos,
}

/// The largest `r` whose square does not exceed `n`.
pub open spec fn is_floor_sqrt(n: int, r: int) -> bool {
    0 <= r && r * r <= n < (r + 1) * (r + 1)
}

/// A number has one floored square root only.
pub proof fn lemma_floor_sqrt_unique(n: int, a: int, b: int)
    requires
        is_floor_sqrt(n, a),
        is_floor_sqrt(n, b),
    ensures
        a == b,
{
    if a < b {
        assert((a + 1) * (a + 1) <= b * b) by (nonlinear_arith)
            requires
                0 <= a,
                a + 1 <= b,
        ;
    }
    if b < a {
        assert((b + 1) * (b + 1) <= a * a) by (nonlinear_arith)
            requires
                0 <= b,
                b + 1 <= a,
        ;
    }
}

/// The floored square root, by bisection.
pub fn isqrt(n: u128) -> (r: u64)
    ensures
        is_floor_sqrt(n as int, r as int),
{
    let mut lo: u128 = 0;
    let mut hi: u128 = 0x1_0000_0000_0000_0000;
    assert(0x1_0000_0000_0000_0000int * 0x1_0000_0000_0000_0000int
        == 0x1_0000_0000_0000_0000_0000_0000_0000_0000int) by (nonlinear_arith);
    while hi - lo > 1
        invariant
            lo < hi <= 0x1_0000_0000_0000_0000,
            lo * lo <= n < hi * hi,
        decreases hi - lo,
    {
        let mid: u128 = lo + (hi - lo) / 2;
        assert(mid * mid <= 0xffff_ffff_ffff_ffff * 0xffff_ffff_ffff_ffff) by (nonlinear_arith)
            requires
                0 <= mid <= 0xffff_ffff_ffff_ffff,
        ;
        if mid * mid <= n {
            lo = mid;
        } else {
            hi = mid;
        }
    }
    lo as u64
}

/// The absolute value.
pub open spec fn abs_int(v: int) -> int {
    if v >= 0 {
        v
    } else {
        -v
    }
}

/// A length scaled by a factor in thousandths, floored.
pub open spec fn scaled(length: int, factor: int) -> int {
    floor_div_spec(length * factor, UNITS_PER_WORLD_UNIT as int)
}

/// The floored square root of `n`.
pub open spec fn floor_sqrt(n: int) -> int {
    choose|r: int| is_floor_sqrt(n, r)
}

/// What `isqrt` returns is the floored square root.
pub proof fn lemma_floor_sqrt_is(n: int, r: int)
    requires
        is_floor_sqrt(n, r),
    ensures
        floor_sqrt(n) == r,
{
    lemma_floor_sqrt_unique(n, floor_sqrt(n), r);
}

/// A radius, held at `MIN_HOVER_RADIUS` or above.
pub open spec fn to_radius(v: int) -> int {
    if v < MIN_HOVER_RADIUS {
        MIN_HOVER_RADIUS as int
    } else {
        v
    }
}

/// The radius of the circle around a box scaled along `x` and `z`: half the
/// diagonal of its scaled footprint, floored, and held as `to_radius` holds
/// it.
pub open spec fn footprint_radius(size_x: int, size_z: int, scale_x: int, scale_z: int) -> int {
    let wx = abs_int(size_x) * abs_int(scale_x);
    let wz = abs_int(size_z) * abs_int(scale_z);
    to_radius(floor_div_spec(floor_sqrt(wx * wx + wz * wz), 2 * UNITS_PER_WORLD_UNIT))
}

impl GltfBounds {
    /// The box's extent along each axis.
    pub fn size(&self) -> (s: WorldOffset)
        ensures
            s.x == self.max.x - self.min.x,
            s.y == self.max.y - self.min.y,
            s.z == self.max.z - self.min.z,
    {
        WorldOffset {
            x: self.max.x as i64 - self.min.x as i64,
            y: self.max.y as i64 - self.min.y as i64,
            z: self.max.z as i64 - self.min.z as i64,
        }
    }

    /// The box's middle, floored to the grid of positions.
    pub fn center(&self) -> (c: WorldPos)
        ensures
            c.x == floor_div_spec(self.min.x + self.max.x, 2),
            c.y == floor_div_spec(self.min.y + self.max.y, 2),
            c.z == floor_div_spec(self.min.z + self.max.z, 2),
    {
        proof {
            lemma_floor_div_bounds(self.min.x + self.max.x, 2);
            lemma_floor_div_bounds(self.min.y + self.max.y, 2);
            lemma_floor_div_bounds(self.min.z + self.max.z, 2);
        }
        WorldPos {
            x: floor_div_wide(self.min.x as i64 + self.max.x as i64, 2) as i32,
            y: floor_div_wide(self.min.y as i64 + self.max.y as i64, 2) as i32,
            z: floor_div_wide(self.min.z as i64 + self.max.z as i64, 2) as i32,
        }
    }
}

/// The absolute value of a coordinate or of a difference of two.
fn magnitude(v: i64) -> (m: u128)
    requires
        -0x1_0000_0000 <= v <= 0x1_0000_0000,
    ensures
        m == abs_int(v as int),
{
    if v >= 0 {
        v as u128
    } else {
        (-v) as u128
    }
}

/// A coordinate scaled by a factor in thousandths, negated.
fn negated_scaled(length: i32, factor: i32) -> (c: i64)
    ensures
        c == scaled(-(length as int), factor as int),
{
    assert(-0x8000_0000 * 0x8000_0000 <= -(length as int) * factor <= 0x8000_0000 * 0x8000_0000)
        by (nonlinear_arith)
        requires
            -0x8000_0000 <= length <= 0x8000_0000,
            -0x8000_0000 <= factor <= 0x8000_0000,
    ;
    let product: i64 = -(length as i64) * (factor as i64);
    floor_div_wide(product, UNITS_PER_WORLD_UNIT as i64)
}

/// What the renderer and the placement rules take from a model's bounds under
/// a scale: the scale itself; the offset that centers the visual on its
/// object along `x` and `z` and stands its bottom on the ground; and the
/// radius of the object's circle, `footprint_radius`. Offset and radius are
/// wide: a large box under a large scale takes them beyond the range of
/// coordinates. A model without known bounds is not offset and has a radius
/// of one world unit.
pub fn compute_render_params(bounds: Option<GltfBounds>, scale: Scale3) -> (r: (
    Scale3,
    WorldOffset,
    i64,
))
    ensures
        r.0 == scale,
        match bounds {
            Some(b) => {
                &&& r.1.x == scaled(-floor_div_spec(b.min.x + b.max.x, 2), scale.x as int)
                &&& r.1.y == scaled(-(b.min.y as int), scale.y as int)
                &&& r.1.z == scaled(-floor_div_spec(b.min.z + b.max.z, 2), scale.z as int)
                &&& r.2 == footprint_radius(
                    b.max.x - b.min.x,
                    b.max.z - b.min.z,
                    scale.x as int,
                    scale.z as int,
                )
            },
            None => r.1 == (WorldOffset { x: 0, y: 0, z: 0 }) && r.2 == UNITS_PER_WORLD_UNIT,
        },
{
    match bounds {
        Some(b) => {
            let center: WorldPos = b.center();
            let offset: WorldOffset = WorldOffset {
                x: negated_scaled(center.x, scale.x),
                y: negated_scaled(b.min.y, scale.y),
                z: negated_scaled(center.z, scale.z),
            };
            let size: WorldOffset = b.size();
            let (ax, az): (u128, u128) = (magnitude(size.x), magnitude(size.z));
            let (sx, sz): (u128, u128) = (magnitude(scale.x as i64), magnitude(scale.z as i64));
            assert(ax * sx <= 0x8000_0000_0000_0000 && az * sz <= 0x8000_0000_0000_0000)
                by (nonlinear_arith)
                requires
                    0 <= ax <= 0xffff_ffff,
                    0 <= sx <= 0x8000_0000,
                    0 <= az <= 0xffff_ffff,
                    0 <= sz <= 0x8000_0000,
            ;
            let wx: u128 = ax * sx;
            let wz: u128 = az * sz;
            assert(wx * wx <= 0x8000_0000_0000_0000 * 0x8000_0000_0000_0000 && wz * wz
                <= 0x8000_0000_0000_0000 * 0x8000_0000_0000_0000) by (nonlinear_arith)
                requires
                    0 <= wx <= 0x8000_0000_0000_0000,
                    0 <= wz <= 0x8000_0000_0000_0000,
            ;
            let root: u64 = isqrt(wx * wx + wz * wz);
            proof {
                lemma_floor_sqrt_is(wx * wx + wz * wz, root as int);
            }
            let half: u64 = root / 2000;
            let radius: i64 = if half < MIN_HOVER_RADIUS as u64 {
                MIN_HOVER_RADIUS as i64
            } else {
                half as i64
            };
            (scale, offset, radius)
        },
        None => (scale, WorldOffset { x: 0, y: 0, z: 0 }, UNITS_PER_WORLD_UNIT as i64),
    }
}

} // verus!
