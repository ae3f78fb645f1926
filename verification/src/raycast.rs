//! Casting a ray onto the heightfield, by marching and bisection.
//!
//! The heightfield itself is not held here: it is sampled by the host. So a
//! cast is a small machine. [`raycast_to_heightfield`] starts it; whenever it
//! asks for a sample, the host looks the height up and feeds it back with
//! [`Raycast::feed`], until the machine reports a hit or a miss.
//!
//! A ray's direction is given in millionths, so that a unit vector has the
//! length `DIRECTION_UNIT`; distances along the ray are in fixed-point units.

use vstd::prelude::*;
use crate::terrain::TerrainWorld;
use crate::units::floor_div_spec;
use crate::units::floor_div_wide;
use crate::units::lemma_floor_div_bounds;
use crate::units::WorldPos;
use crate::units::WorldXz;

verus! {

/// Length of a unit direction.
pub const DIRECTION_UNIT: i64 = 1_000_000;

/// A ray is cast only if it points down by more than this: a direction whose
/// `y` is at or above it never hits.
pub const MIN_DESCENT: i32 = -100;

/// The height below which no surface is looked for.
pub const FLOOR_Y: i64 = -200_000;

/// The furthest a ray is followed.
pub const MAX_DISTANCE: i64 = 10_000_000;

/// The march advances by at least this much a step, and by at most
/// `MAX_STEP`.
pub const MIN_STEP: i64 = 10;

pub const MAX_STEP: i64 = 5_000;

/// Times the bracket of a crossing is halved.
pub const REFINEMENTS: u8 = 12;

/// A direction, in millionths.
#[derive(Clone, Copy, Debug, PartialEq, Eq, Structural)]
pub struct RayDir {
    pub x: i32,
    pub y: i32,
    pub z: i32,
}

/// A ray in world space.
#[derive(Clone, Copy, Debug, PartialEq, Eq, Structural)]
pub struct Ray {
    pub origin: WorldPos,
    pub direction: RayDir,
}

/// What a cast wants next, or how it ended.
#[derive(Clone, Copy, Debug, PartialEq, Eq, Structural)]
pub enum RaycastAction {
    /// The height of the surface at this point is wanted.
    Sample(WorldXz),
    /// The ray meets the surface here.
    Hit(WorldPos),
    /// The ray meets no surface.
    Miss,
}

/// Where a cast stands. Each phase but `Done` waits for the height at one
/// point of the ray.
#[derive(Clone, Copy, Debug, PartialEq, Eq, Structural)]
pub enum RaycastPhase {
    /// Waits for the height under the origin.
    Origin,
    /// Marching: waits for the height under the point at distance `t`; the
    /// point at `prev_t` was above the surface.
    March { prev_t: i64, t: i64 },
    /// Halving the bracket `lo..hi` of a crossing: waits for the height under
    /// its middle; `left` halvings remain, this one counted.
    Refine { lo: i64, hi: i64, left: u8 },
    /// Waits for the height under the upper end `hi` of the final bracket,
    /// where the hit is reported.
    Settle { lo: i64, hi: i64 },
    /// Ended.
    Done,
}

/// A cast in progress.
#[derive(Clone, Copy, Debug, PartialEq, Eq, Structural)]
pub struct Raycast {
    pub ray: Ray,
    /// Distance that the march advances a step.
    pub step_t: i64,
    /// Distance at which the march gives up.
    pub t_max: i64,
    pub phase: RaycastPhase,
}

/// `v`, held between `lo` and `hi`.
pub open spec fn clamp_spec(v: int, lo: int, hi: int) -> int {
    if v < lo {
        lo
    } else if v > hi {
        hi
    } else {
        v
    }
}

/// One coordinate of the point at distance `t` along a ray.
pub open spec fn ray_coord(origin: int, direction: int, t: int) -> int {
    origin + floor_div_spec(direction * t, DIRECTION_UNIT as int)
}

/// Whether the point at distance `t` along the ray is a position of the
/// world.
pub open spec fn in_world(ray: Ray, t: int) -> bool {
    &&& i32::MIN <= ray_coord(ray.origin.x as int, ray.direction.x as int, t) <= i32::MAX
    &&& i32::MIN <= ray_coord(ray.origin.y as int, ray.direction.y as int, t) <= i32::MAX
    &&& i32::MIN <= ray_coord(ray.origin.z as int, ray.direction.z as int, t) <= i32::MAX
}

/// The point at distance `t` along the ray.
pub open spec fn ray_point(ray: Ray, t: int) -> WorldPos
    recommends
        in_world(ray, t),
{
    WorldPos {
        x: ray_coord(ray.origin.x as int, ray.direction.x as int, t) as i32,
        y: ray_coord(ray.origin.y as int, ray.direction.y as int, t) as i32,
        z: ray_coord(ray.origin.z as int, ray.direction.z as int, t) as i32,
    }
}

/// The march's step for a tile size and a descent: half a tile of height,
/// held between a quarter of a world unit and two, taken along the ray and
/// held between `MIN_STEP` and `MAX_STEP`.
pub open spec fn step_for(tile_size: int, descent: int) -> int {
    clamp_spec(
        floor_div_spec(
            clamp_spec(floor_div_spec(tile_size, 2), 250, 2000) * DIRECTION_UNIT,
            descent,
        ),
        MIN_STEP as int,
        MAX_STEP as int,
    )
}

/// How far a ray is followed: down to `FLOOR_Y`, and no further than
/// `MAX_DISTANCE`.
pub open spec fn range_for(origin_y: int, descent: int) -> int {
    clamp_spec(
        floor_div_spec((origin_y - FLOOR_Y) * DIRECTION_UNIT, descent),
        0,
        MAX_DISTANCE as int,
    )
}

/// Middle of a bracket.
pub open spec fn middle(lo: int, hi: int) -> int {
    floor_div_spec(lo + hi, 2)
}

impl Raycast {
    /// The distance along the ray of the point whose height the cast waits
    /// for.
    pub open spec fn awaited(&self) -> int {
        match self.phase {
            RaycastPhase::Origin => 0,
            RaycastPhase::March { prev_t, t } => t as int,
            RaycastPhase::Refine { lo, hi, left } => middle(lo as int, hi as int),
            RaycastPhase::Settle { lo, hi } => hi as int,
            RaycastPhase::Done => 0,
        }
    }

    /// A cast as the machine makes it: the ray points down; step and range
    /// are within their limits; the point waited for lies on the ray within
    /// the range and in the world; the march has advanced by one step; a
    /// bracket that is to be halved is at least
    /// two units wide and has as many halvings left as `REFINEMENTS` allows.
    pub open spec fn wf(&self) -> bool {
        &&& self.ray.direction.y < MIN_DESCENT
        &&& MIN_STEP <= self.step_t <= MAX_STEP
        &&& 0 <= self.t_max <= MAX_DISTANCE
        &&& match self.phase {
            RaycastPhase::Origin => true,
            RaycastPhase::March { prev_t, t } => 0 <= prev_t && prev_t + self.step_t == t && t
                <= self.t_max && in_world(self.ray, t as int),
            RaycastPhase::Refine { lo, hi, left } => 0 <= lo && lo + 2 <= hi <= self.t_max && 1
                <= left <= REFINEMENTS && in_world(self.ray, middle(lo as int, hi as int)),
            RaycastPhase::Settle { lo, hi } => 0 <= lo < hi <= self.t_max && in_world(
                self.ray,
                hi as int,
            ),
            RaycastPhase::Done => true,
        }
    }

    /// The cast with its phase changed.
    pub open spec fn in_phase(self, phase: RaycastPhase) -> Raycast {
        Raycast { ray: self.ray, step_t: self.step_t, t_max: self.t_max, phase }
    }

    /// Asking for the height under the point at distance `t`, to go on in
    /// `phase`; a miss if that point is outside the world.
    pub open spec fn probing(self, t: int, phase: RaycastPhase) -> (Raycast, RaycastAction) {
        if in_world(self.ray, t) {
            (self.in_phase(phase), RaycastAction::Sample(ray_point(self.ray, t).xz()))
        } else {
            (self.in_phase(RaycastPhase::Done), RaycastAction::Miss)
        }
    }

    /// How a cast of `ray` over tiles of the given size begins. A ray that
    /// does not point down by more than `MIN_DESCENT`, or that starts at or
    /// below the floor, misses at once. Any other asks for the height under
    /// its origin, however short its range: an origin at or below the surface
    /// is a hit even where the range allows no step.
    pub open spec fn started(tile_size: int, ray: Ray) -> (Raycast, RaycastAction) {
        let descent = -(ray.direction.y as int);
        let cast = Raycast {
            ray,
            step_t: step_for(tile_size, descent) as i64,
            t_max: range_for(ray.origin.y as int, descent) as i64,
            phase: RaycastPhase::Origin,
        };
        if ray.direction.y >= MIN_DESCENT {
            (
                Raycast { ray, step_t: MIN_STEP, t_max: 0, phase: RaycastPhase::Done },
                RaycastAction::Miss,
            )
        } else if ray.origin.y <= FLOOR_Y {
            (
                Raycast { ray, step_t: MIN_STEP, t_max: 0, phase: RaycastPhase::Done },
                RaycastAction::Miss,
            )
        } else {
            (cast, RaycastAction::Sample(ray.origin.xz()))
        }
    }

    /// How a cast goes on when it is fed the height under the point it
    /// waited for.
    ///
    /// - Under the origin: an origin at or below the surface is a hit at its
    ///   own projection onto the surface. Otherwise the march begins, one step
    ///   along the ray, if the range allows a step.
    /// - Marching: the first point at or below the surface closes a bracket
    ///   with the point before it, and the bracket's middle is asked for.
    ///   Otherwise the march goes one step on, or misses at the end of the
    ///   range.
    /// - Halving: the half of the bracket that still holds the crossing is
    ///   kept. After the last halving, or once the bracket is a single unit
    ///   wide, the upper end is asked for.
    /// - Under the upper end: the hit, at that point's projection onto the
    ///   surface.
    pub open spec fn fed(self, height: i32) -> (Raycast, RaycastAction) {
        let done = self.in_phase(RaycastPhase::Done);
        let at = ray_point(self.ray, self.awaited());
        match self.phase {
            RaycastPhase::Origin => {
                if self.ray.origin.y <= height {
                    (
                        done,
                        RaycastAction::Hit(
                            WorldPos { x: self.ray.origin.x, y: height, z: self.ray.origin.z },
                        ),
                    )
                } else if self.step_t <= self.t_max {
                    self.probing(
                        self.step_t as int,
                        RaycastPhase::March { prev_t: 0, t: self.step_t },
                    )
                } else {
                    (done, RaycastAction::Miss)
                }
            },
            RaycastPhase::March { prev_t, t } => {
                if at.y <= height {
                    self.probing(
                        middle(prev_t as int, t as int),
                        RaycastPhase::Refine { lo: prev_t, hi: t, left: REFINEMENTS },
                    )
                } else if t + self.step_t <= self.t_max {
                    self.probing(
                        t + self.step_t,
                        RaycastPhase::March { prev_t: t, t: (t + self.step_t) as i64 },
                    )
                } else {
                    (done, RaycastAction::Miss)
                }
            },
            RaycastPhase::Refine { lo, hi, left } => {
                let mid = middle(lo as int, hi as int) as i64;
                let (lo2, hi2) = if at.y <= height {
                    (lo, mid)
                } else {
                    (mid, hi)
                };
                if left > 1 && hi2 - lo2 >= 2 {
                    self.probing(
                        middle(lo2 as int, hi2 as int),
                        RaycastPhase::Refine { lo: lo2, hi: hi2, left: (left - 1) as u8 },
                    )
                } else {
                    self.probing(hi2 as int, RaycastPhase::Settle { lo: lo2, hi: hi2 })
                }
            },
            RaycastPhase::Settle { lo, hi } => (
                done,
                RaycastAction::Hit(WorldPos { x: at.x, y: height, z: at.z }),
            ),
            RaycastPhase::Done => (done, RaycastAction::Miss),
        }
    }
}

/// `v`, held between `lo` and `hi`.
fn clamp(v: i64, lo: i64, hi: i64) -> (r: i64)
    requires
        lo <= hi,
    ensures
        r == clamp_spec(v as int, lo as int, hi as int),
{
    if v < lo {
        lo
    } else if v > hi {
        hi
    } else {
        v
    }
}

/// The point at distance `t` along the ray, if it is a position of the world.
fn point_at(ray: &Ray, t: i64) -> (p: Option<WorldPos>)
    requires
        0 <= t <= MAX_DISTANCE,
    ensures
        p is Some <==> in_world(*ray, t as int),
        p matches Some(at) ==> at == ray_point(*ray, t as int),
{
    assert(-0x8000_0000 * 10_000_000 <= ray.direction.x * t <= 0x8000_0000 * 10_000_000)
        by (nonlinear_arith)
        requires
            -0x8000_0000 <= ray.direction.x <= 0x8000_0000,
            0 <= t <= 10_000_000,
    ;
    assert(-0x8000_0000 * 10_000_000 <= ray.direction.y * t <= 0x8000_0000 * 10_000_000)
        by (nonlinear_arith)
        requires
            -0x8000_0000 <= ray.direction.y <= 0x8000_0000,
            0 <= t <= 10_000_000,
    ;
    assert(-0x8000_0000 * 10_000_000 <= ray.direction.z * t <= 0x8000_0000 * 10_000_000)
        by (nonlinear_arith)
        requires
            -0x8000_0000 <= ray.direction.z <= 0x8000_0000,
            0 <= t <= 10_000_000,
    ;
    let dx: i64 = floor_div_wide(ray.direction.x as i64 * t, DIRECTION_UNIT);
    let dy: i64 = floor_div_wide(ray.direction.y as i64 * t, DIRECTION_UNIT);
    let dz: i64 = floor_div_wide(ray.direction.z as i64 * t, DIRECTION_UNIT);
    proof {
        lemma_floor_div_bounds(ray.direction.x * t, DIRECTION_UNIT as int);
        lemma_floor_div_bounds(ray.direction.y * t, DIRECTION_UNIT as int);
        lemma_floor_div_bounds(ray.direction.z * t, DIRECTION_UNIT as int);
    }
    let x: i64 = ray.origin.x as i64 + dx;
    let y: i64 = ray.origin.y as i64 + dy;
    let z: i64 = ray.origin.z as i64 + dz;
    if x < i32::MIN as i64 || x > i32::MAX as i64 || y < i32::MIN as i64 || y > i32::MAX as i64
        || z < i32::MIN as i64 || z > i32::MAX as i64 {
        None
    } else {
        Some(WorldPos { x: x as i32, y: y as i32, z: z as i32 })
    }
}

/// Starts a cast of `ray` onto the heightfield of `terrain`:
/// `Raycast::started` says how.
pub fn raycast_to_heightfield(terrain: &TerrainWorld, ray: Ray) -> (r: (Raycast, RaycastAction))
    ensures
        r == Raycast::started(terrain.config().tile_size as int, ray),
        r.0.wf() || r.0.phase == RaycastPhase::Done,
        r.1 is Miss <==> r.0.phase == RaycastPhase::Done,
{
    let ended: Raycast = Raycast { ray, step_t: MIN_STEP, t_max: 0, phase: RaycastPhase::Done };
    if ray.direction.y >= MIN_DESCENT {
        return (ended, RaycastAction::Miss);
    }
    let descent: i64 = -(ray.direction.y as i64);
    let drop: i64 = ray.origin.y as i64 - FLOOR_Y;
    assert(-0x8000_0000 * 1_000_000 <= drop * DIRECTION_UNIT <= 0x8100_0000 * 1_000_000)
        by (nonlinear_arith)
        requires
            -0x8000_0000 <= drop <= 0x8100_0000,
            DIRECTION_UNIT == 1_000_000,
    ;
    if drop <= 0 {
        return (ended, RaycastAction::Miss);
    }
    let t_max: i64 = clamp(floor_div_wide(drop * DIRECTION_UNIT, descent), 0, MAX_DISTANCE);
    let half_tile: i64 = floor_div_wide(terrain.config().tile_size as i64, 2);
    let step_y: i64 = clamp(half_tile, 250, 2000);
    assert(0 <= step_y * DIRECTION_UNIT <= 2000 * 1_000_000) by (nonlinear_arith)
        requires
            250 <= step_y <= 2000,
            DIRECTION_UNIT == 1_000_000,
    ;
    let step_t: i64 = clamp(floor_div_wide(step_y * DIRECTION_UNIT, descent), MIN_STEP, MAX_STEP);
    (
        Raycast { ray, step_t, t_max, phase: RaycastPhase::Origin },
        RaycastAction::Sample(ray.origin.xz()),
    )
}

impl Raycast {
    /// Asks for the height under the point at distance `t`, to go on in
    /// `phase`; misses if that point is outside the world.
    fn probe(self, t: i64, phase: RaycastPhase) -> (r: (Raycast, RaycastAction))
        requires
            0 <= t <= MAX_DISTANCE,
        ensures
            r == self.probing(t as int, phase),
    {
        match point_at(&self.ray, t) {
            Some(p) => (
                Raycast { ray: self.ray, step_t: self.step_t, t_max: self.t_max, phase },
                RaycastAction::Sample(p.xz()),
            ),
            None => (
                Raycast {
                    ray: self.ray,
                    step_t: self.step_t,
                    t_max: self.t_max,
                    phase: RaycastPhase::Done,
                },
                RaycastAction::Miss,
            ),
        }
    }

    /// Whether the cast is one that the machine makes; for a caller that
    /// has put a cast together by hand.
    pub fn is_wf(&self) -> (b: bool)
        ensures
            b == self.wf(),
    {
        if self.ray.direction.y >= MIN_DESCENT || self.step_t < MIN_STEP || self.step_t > MAX_STEP
            || self.t_max < 0 || self.t_max > MAX_DISTANCE {
            return false;
        }
        match self.phase {
            RaycastPhase::Origin => true,
            RaycastPhase::March { prev_t, t } => {
                if 0 <= prev_t && prev_t <= self.t_max && t <= self.t_max && prev_t + self.step_t
                    == t {
                    point_at(&self.ray, t).is_some()
                } else {
                    false
                }
            },
            RaycastPhase::Refine { lo, hi, left } => {
                if 0 <= lo && lo <= self.t_max && hi <= self.t_max && lo + 2 <= hi && 1 <= left
                    && left <= REFINEMENTS {
                    proof {
                        lemma_floor_div_bounds(lo + hi, 2);
                    }
                    point_at(&self.ray, floor_div_wide(lo + hi, 2)).is_some()
                } else {
                    false
                }
            },
            RaycastPhase::Settle { lo, hi } => {
                if 0 <= lo && lo < hi && hi <= self.t_max {
                    point_at(&self.ray, hi).is_some()
                } else {
                    false
                }
            },
            RaycastPhase::Done => true,
        }
    }

    /// Takes the height under the point that the cast waited for and goes
    /// on: `fed` says how.
    pub fn feed(self, height: i32) -> (r: (Raycast, RaycastAction))
        requires
            self.wf(),
        ensures
            r == self.fed(height),
            r.0.wf(),
            r.1 is Sample <==> r.0.phase != RaycastPhase::Done,
    {
        let done: Raycast = Raycast {
            ray: self.ray,
            step_t: self.step_t,
            t_max: self.t_max,
            phase: RaycastPhase::Done,
        };
        match self.phase {
            RaycastPhase::Origin => {
                if self.ray.origin.y <= height {
                    (
                        done,
                        RaycastAction::Hit(
                            WorldPos { x: self.ray.origin.x, y: height, z: self.ray.origin.z },
                        ),
                    )
                } else if self.step_t <= self.t_max {
                    self.probe(self.step_t, RaycastPhase::March { prev_t: 0, t: self.step_t })
                } else {
                    (done, RaycastAction::Miss)
                }
            },
            RaycastPhase::March { prev_t, t } => {
                let at: Option<WorldPos> = point_at(&self.ray, t);
                let below: bool = match at {
                    Some(p) => p.y <= height,
                    None => false,
                };
                if below {
                    let mid: i64 = floor_div_wide(prev_t + t, 2);
                    proof {
                        lemma_floor_div_bounds(prev_t + t, 2);
                    }
                    self.probe(mid, RaycastPhase::Refine { lo: prev_t, hi: t, left: REFINEMENTS })
                } else if t + self.step_t <= self.t_max {
                    self.probe(
                        t + self.step_t,
                        RaycastPhase::March { prev_t: t, t: t + self.step_t },
                    )
                } else {
                    (done, RaycastAction::Miss)
                }
            },
            RaycastPhase::Refine { lo, hi, left } => {
                let mid: i64 = floor_div_wide(lo + hi, 2);
                proof {
                    lemma_floor_div_bounds(lo + hi, 2);
                }
                let at: Option<WorldPos> = point_at(&self.ray, mid);
                let below: bool = match at {
                    Some(p) => p.y <= height,
                    None => false,
                };
                let lo2: i64 = if below {
                    lo
                } else {
                    mid
                };
                let hi2: i64 = if below {
                    mid
                } else {
                    hi
                };
                if left > 1 && hi2 - lo2 >= 2 {
                    let next: i64 = floor_div_wide(lo2 + hi2, 2);
                    proof {
                        lemma_floor_div_bounds(lo2 + hi2, 2);
                    }
                    self.probe(next, RaycastPhase::Refine { lo: lo2, hi: hi2, left: left - 1 })
                } else {
                    self.probe(hi2, RaycastPhase::Settle { lo: lo2, hi: hi2 })
                }
            },
            RaycastPhase::Settle { lo, hi } => {
                match point_at(&self.ray, hi) {
                    Some(p) => (done, RaycastAction::Hit(WorldPos { x: p.x, y: height, z: p.z })),
                    None => (done, RaycastAction::Miss),
                }
            },
            RaycastPhase::Done => (done, RaycastAction::Miss),
        }
    }
}

} // verus!
