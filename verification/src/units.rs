//! Fixed-point world coordinates.
//!
//! Every length, height and radius in this crate is an integer count of
//! thousandths of a world unit, so that all geometry is exact and identical on
//! every machine. A host that works in floating point scales by
//! [`UNITS_PER_WORLD_UNIT`] and rounds once, at its edge.

use vstd::prelude::*;
use vstd::arithmetic::div_mod::lemma_fundamental_div_mod;
use vstd::arithmetic::div_mod::lemma_fundamental_div_mod_converse;

verus! {

/// Fixed-point steps per world unit.
pub const UNITS_PER_WORLD_UNIT: i32 = 1000;

/// A point in world space; `y` is up.
#[derive(Clone, Copy, Debug, PartialEq, Eq, Hash, Structural)]
pub struct WorldPos {
    pub x: i32,
    pub y: i32,
    pub z: i32,
}

/// A vector between positions, or a position beyond the range of
/// coordinates: its parts can be far larger than a coordinate.
#[derive(Clone, Copy, Debug, PartialEq, Eq, Hash, Structural)]
pub struct WorldOffset {
    pub x: i64,
    pub y: i64,
    pub z: i64,
}

/// A point of the ground plane.
#[derive(Clone, Copy, Debug, PartialEq, Eq, Hash, Structural)]
pub struct WorldXz {
    pub x: i32,
    pub z: i32,
}

impl WorldPos {
    pub fn new(x: i32, y: i32, z: i32) -> (p: WorldPos)
        ensures
            p == (WorldPos { x, y, z }),
    {
        WorldPos { x, y, z }
    }

    pub open spec fn xz_spec(&self) -> WorldXz {
        WorldXz { x: self.x, z: self.z }
    }

    /// The point's projection onto the ground plane.
    #[verifier::when_used_as_spec(xz_spec)]
    pub fn xz(&self) -> (p: WorldXz)
        ensures
            p == self.xz(),
    {
        WorldXz { x: self.x, z: self.z }
    }
}

impl WorldXz {
    pub fn new(x: i32, z: i32) -> (p: WorldXz)
        ensures
            p == (WorldXz { x, z }),
    {
        WorldXz { x, z }
    }
}

/// Squared distance between two points of the ground plane.
pub open spec fn dist_sq(a: WorldXz, b: WorldXz) -> int {
    (a.x - b.x) * (a.x - b.x) + (a.z - b.z) * (a.z - b.z)
}

/// The larger of two integers.
pub open spec fn max_int(a: int, b: int) -> int {
    if a >= b {
        a
    } else {
        b
    }
}

/// `floor(a / d)` for a positive divisor.
pub open spec fn floor_div_spec(a: int, d: int) -> int {
    a / d
}

/// `ceil(a / d)` for a positive divisor.
pub open spec fn ceil_div_spec(a: int, d: int) -> int {
    (a + d - 1) / d
}

/// What pins a floored quotient down: `q * d <= a < (q + 1) * d`.
pub proof fn lemma_floor_div_bounds(a: int, d: int)
    requires
        d >= 1,
    ensures
        floor_div_spec(a, d) * d <= a < (floor_div_spec(a, d) + 1) * d,
{
    lemma_fundamental_div_mod(a, d);
    let q = a / d;
    let r = a % d;
    assert(0 <= r < d);
    assert(q * d == d * q) by (nonlinear_arith);
    assert((q + 1) * d == q * d + d) by (nonlinear_arith);
}

/// Any `q` with `q * d <= a < (q + 1) * d` is the floored quotient.
pub proof fn lemma_floor_div_unique(a: int, d: int, q: int)
    requires
        d >= 1,
        q * d <= a < (q + 1) * d,
    ensures
        floor_div_spec(a, d) == q,
{
    let r = a - q * d;
    assert((q + 1) * d == q * d + d) by (nonlinear_arith);
    lemma_fundamental_div_mod_converse(a, d, q, r);
}

/// The floored quotient of a coordinate is a coordinate.
pub proof fn lemma_floor_div_in_range(a: int, d: int)
    requires
        d >= 1,
        i32::MIN <= a <= i32::MAX,
    ensures
        i32::MIN <= floor_div_spec(a, d) <= i32::MAX,
{
    lemma_floor_div_bounds(a, d);
    let q = floor_div_spec(a, d);
    assert(i32::MIN <= q <= i32::MAX) by (nonlinear_arith)
        requires
            q * d <= a < (q + 1) * d,
            d >= 1,
            i32::MIN <= a <= i32::MAX,
    ;
}

/// Floored quotients are monotone in the dividend.
pub proof fn lemma_floor_div_monotone(a: int, b: int, d: int)
    requires
        d >= 1,
        a <= b,
    ensures
        floor_div_spec(a, d) <= floor_div_spec(b, d),
{
    lemma_floor_div_bounds(a, d);
    lemma_floor_div_bounds(b, d);
    let qa = floor_div_spec(a, d);
    let qb = floor_div_spec(b, d);
    if qa > qb {
        assert(qa * d >= (qb + 1) * d) by (nonlinear_arith)
            requires
                qa >= qb + 1,
                d >= 1,
        ;
    }
}

/// Two points at most `r` apart fall into cells at most `ceil(r / d)` apart.
pub proof fn lemma_floor_div_near(a: int, b: int, r: int, d: int)
    requires
        d >= 1,
        r >= 0,
        a - r <= b <= a + r,
    ensures
        floor_div_spec(a, d) - ceil_div_spec(r, d) <= floor_div_spec(b, d) <= floor_div_spec(a, d)
            + ceil_div_spec(r, d),
{
    let k = ceil_div_spec(r, d);
    lemma_floor_div_bounds(r + d - 1, d);
    assert(k * d >= r) by (nonlinear_arith)
        requires
            r + d - 1 < (k + 1) * d,
    ;
    lemma_floor_div_bounds(a, d);
    lemma_floor_div_bounds(b, d);
    let qa = floor_div_spec(a, d);
    let qb = floor_div_spec(b, d);
    if qb > qa + k {
        assert(qb * d >= (qa + 1) * d + k * d) by (nonlinear_arith)
            requires
                qb >= qa + k + 1,
                d >= 1,
        ;
    }
    if qb < qa - k {
        assert((qb + 1) * d + k * d <= qa * d) by (nonlinear_arith)
            requires
                qb + 1 + k <= qa,
                d >= 1,
        ;
    }
}

/// An array of `w` by `h` cells, numbered row by row: cell `(x, z)` has the
/// number `z * w + x`, and the number tells the cell.
pub proof fn lemma_cell_number(w: int, h: int, x: int, z: int)
    requires
        0 <= x < w,
        0 <= z < h,
    ensures
        0 <= z * w + x < w * h,
        (z * w + x) / w == z,
        (z * w + x) % w == x,
{
    assert(0 <= z * w && z * w + w <= w * h) by (nonlinear_arith)
        requires
            0 <= z < h,
            0 < w,
    ;
    lemma_fundamental_div_mod_converse(z * w + x, w, z, x);
}

/// `floor(a / d)` on wide integers.
pub fn floor_div_wide(a: i64, d: i64) -> (q: i64)
    requires
        d >= 1,
    ensures
        q == floor_div_spec(a as int, d as int),
{
    if a >= 0 {
        a / d
    } else {
        let n: i64 = -(a + 1);
        let m: i64 = n / d;
        let r: i64 = n % d;
        proof {
            lemma_fundamental_div_mod(n as int, d as int);
            let q = -(m as int) - 1;
            let rr = d - 1 - r;
            assert(a as int == q * d + rr) by (nonlinear_arith)
                requires
                    a == -(n as int) - 1,
                    n == d * m + r,
                    q == -(m as int) - 1,
                    rr == d - 1 - r,
            ;
            lemma_fundamental_div_mod_converse(a as int, d as int, q, rr);
        }
        -m - 1
    }
}

/// `floor(a / d)`; the quotient of a coordinate by a cell or chunk size.
pub fn floor_div(a: i32, d: i32) -> (q: i32)
    requires
        d >= 1,
    ensures
        q == floor_div_spec(a as int, d as int),
{
    let q: i64 = floor_div_wide(a as i64, d as i64);
    proof {
        lemma_floor_div_in_range(a as int, d as int);
    }
    q as i32
}

/// `ceil(a / d)` for a length `a >= 0`; how many cells a radius reaches.
pub fn ceil_div(a: i32, d: i32) -> (q: i32)
    requires
        a >= 0,
        d >= 1,
    ensures
        q == ceil_div_spec(a as int, d as int),
        q >= 0,
{
    let n: i64 = a as i64 + d as i64 - 1;
    let q: i64 = n / (d as i64);
    proof {
        lemma_floor_div_bounds(n as int, d as int);
        assert(q <= a) by (nonlinear_arith)
            requires
                q * d <= a + d - 1,
                d >= 1,
                a >= 0,
                q >= 0,
        ;
    }
    q as i32
}

} // verus!
