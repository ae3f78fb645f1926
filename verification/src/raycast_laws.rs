//! What a cast finds, when the heights it is fed are those of one surface.

use vstd::prelude::*;
use crate::raycast::middle;
use crate::raycast::ray_point;
use crate::raycast::Raycast;
use crate::raycast::RaycastPhase;
use crate::raycast::Ray;
use crate::raycast::MAX_STEP;
use crate::raycast::REFINEMENTS;
use crate::units::lemma_floor_div_bounds;
use crate::units::WorldXz;

verus! {

/// Whether the ray's point at distance `t` is at or below the surface.
pub open spec fn at_or_below(ray: Ray, surface: spec_fn(WorldXz) -> i32, t: int) -> bool {
    ray_point(ray, t).y <= surface(ray_point(ray, t).xz())
}

/// A width after `n` halvings, each rounded up.
pub open spec fn halved(width: int, n: nat) -> int
    decreases n,
{
    if n == 0 {
        width
    } else {
        (halved(width, (n - 1) as nat) + 1) / 2
    }
}

/// The height that the surface has where the cast waits for one.
pub open spec fn awaited_height(cast: Raycast, surface: spec_fn(WorldXz) -> i32) -> i32 {
    surface(ray_point(cast.ray, cast.awaited()).xz())
}

/// What a cast has found out about a surface. While it marches, the point
/// before the one it waits for is above the surface. Once it has a bracket,
/// the ray is above the surface at the lower end and at or below it at the
/// upper end, and the bracket is no wider than a step halved as often as
/// halvings were made.
pub open spec fn brackets(cast: Raycast, surface: spec_fn(WorldXz) -> i32) -> bool {
    match cast.phase {
        RaycastPhase::Origin => true,
        RaycastPhase::March { prev_t, t } => !at_or_below(cast.ray, surface, prev_t as int),
        RaycastPhase::Refine { lo, hi, left } => {
            &&& !at_or_below(cast.ray, surface, lo as int)
            &&& at_or_below(cast.ray, surface, hi as int)
            &&& hi - lo <= halved(cast.step_t as int, (REFINEMENTS - left) as nat)
        },
        RaycastPhase::Settle { lo, hi } => {
            &&& !at_or_below(cast.ray, surface, lo as int)
            &&& at_or_below(cast.ray, surface, hi as int)
            &&& hi - lo <= halved(cast.step_t as int, REFINEMENTS as nat)
        },
        RaycastPhase::Done => true,
    }
}

/// Halving keeps a width of one or more at one or more, and a smaller width
/// stays the smaller.
pub proof fn lemma_halved_bounds(a: int, b: int, n: nat)
    requires
        1 <= a <= b,
    ensures
        1 <= halved(a, n) <= halved(b, n),
    decreases n,
{
    if n > 0 {
        lemma_halved_bounds(a, b, (n - 1) as nat);
    }
}

/// Halving more often does not widen.
pub proof fn lemma_halved_shrinks(width: int, n: nat, m: nat)
    requires
        1 <= width,
        n <= m,
    ensures
        halved(width, m) <= halved(width, n),
    decreases m - n,
{
    if n < m {
        lemma_halved_shrinks(width, n, (m - 1) as nat);
        lemma_halved_bounds(width, width, (m - 1) as nat);
    }
}

/// After all its halvings a bracket is at most two units wide: a step is at
/// most `MAX_STEP`, which twelve halvings bring down to two.
pub proof fn lemma_final_width(step: int)
    requires
        1 <= step <= MAX_STEP,
    ensures
        1 <= halved(step, REFINEMENTS as nat) <= 2,
{
    lemma_halved_bounds(step, MAX_STEP as int, REFINEMENTS as nat);
    let w = MAX_STEP as int;
    assert(halved(w, 0) == 5000);
    assert(halved(w, 1) == 2500);
    assert(halved(w, 2) == 1250);
    assert(halved(w, 3) == 625);
    assert(halved(w, 4) == 313);
    assert(halved(w, 5) == 157);
    assert(halved(w, 6) == 79);
    assert(halved(w, 7) == 40);
    assert(halved(w, 8) == 20);
    assert(halved(w, 9) == 10);
    assert(halved(w, 10) == 5);
    assert(halved(w, 11) == 3);
    assert(halved(w, 12) == 2);
}

/// How many heights a cast may still ask for, at most: the one it waits for,
/// one for each step that the march has left in its range, one for each
/// halving, and one for the upper end of the final bracket.
pub open spec fn feeds_left(cast: Raycast) -> int {
    match cast.phase {
        RaycastPhase::Origin => cast.t_max + REFINEMENTS + 3,
        RaycastPhase::March { prev_t, t } => (cast.t_max - t) + REFINEMENTS + 2,
        RaycastPhase::Refine { lo, hi, left } => left + 1,
        RaycastPhase::Settle { lo, hi } => 1,
        RaycastPhase::Done => 0,
    }
}

/// Every height fed brings a cast nearer to its end: a cast ends, whatever
/// the surface, after at most `feeds_left` heights.
pub proof fn lemma_feed_makes_progress(cast: Raycast, height: i32)
    requires
        cast.wf(),
        cast.phase != RaycastPhase::Done,
    ensures
        0 <= feeds_left(cast.fed(height).0) < feeds_left(cast),
{
    match cast.phase {
        RaycastPhase::March { prev_t, t } => {
            lemma_floor_div_bounds(prev_t + t, 2);
        },
        RaycastPhase::Refine { lo, hi, left } => {
            lemma_floor_div_bounds(lo + hi, 2);
        },
        _ => {},
    }
}

/// Fed the heights of one surface, a cast keeps what it has found out: its
/// bracket always holds a crossing of the ray and the surface, and narrows
/// with every halving.
pub proof fn lemma_feed_keeps_bracket(cast: Raycast, surface: spec_fn(WorldXz) -> i32)
    requires
        cast.wf(),
        brackets(cast, surface),
    ensures
        brackets(cast.fed(awaited_height(cast, surface)).0, surface),
{
    let height = awaited_height(cast, surface);
    let next = cast.fed(height).0;
    match cast.phase {
        RaycastPhase::Origin => {
            assert(ray_point(cast.ray, 0) == cast.ray.origin) by {
                assert(cast.ray.direction.x * 0 == 0);
                assert(cast.ray.direction.y * 0 == 0);
                assert(cast.ray.direction.z * 0 == 0);
            }
        },
        RaycastPhase::March { prev_t, t } => {
            lemma_floor_div_bounds(prev_t + t, 2);
        },
        RaycastPhase::Refine { lo, hi, left } => {
            let mid = middle(lo as int, hi as int);
            lemma_floor_div_bounds(lo + hi, 2);
            let done = (REFINEMENTS - left) as nat;
            let w = halved(cast.step_t as int, done);
            assert(halved(cast.step_t as int, done + 1) == (w + 1) / 2);
            assert(mid - lo <= (w + 1) / 2 && hi - mid <= (w + 1) / 2);
            lemma_halved_shrinks(cast.step_t as int, done + 1, REFINEMENTS as nat);
            lemma_halved_bounds(cast.step_t as int, cast.step_t as int, REFINEMENTS as nat);
        },
        RaycastPhase::Settle { lo, hi } => {},
        RaycastPhase::Done => {},
    }
}

/// Fed the heights of one surface, a cast that reports a hit reports a point
/// of the surface. If the origin was not at or below the surface, the hit
/// stands under the upper end of a bracket at most two units of distance
/// wide, above which the ray is over the surface and at which it is not.
pub proof fn lemma_hit_is_on_surface(cast: Raycast, surface: spec_fn(WorldXz) -> i32)
    requires
        cast.wf(),
        brackets(cast, surface),
        cast.fed(awaited_height(cast, surface)).1 is Hit,
    ensures
        ({
            let hit = cast.fed(awaited_height(cast, surface)).1->Hit_0;
            &&& hit.y == surface(hit.xz())
            &&& cast.phase is Origin || cast.phase is Settle
            &&& cast.phase is Origin ==> hit.xz() == cast.ray.origin.xz() && cast.ray.origin.y
                <= hit.y
            &&& cast.phase matches RaycastPhase::Settle { lo, hi } ==> {
                &&& hit.xz() == ray_point(cast.ray, hi as int).xz()
                &&& hi - lo <= 2
                &&& !at_or_below(cast.ray, surface, lo as int)
                &&& at_or_below(cast.ray, surface, hi as int)
            }
        }),
{
    lemma_final_width(cast.step_t as int);
    match cast.phase {
        RaycastPhase::Origin => {
            assert(ray_point(cast.ray, 0) == cast.ray.origin) by {
                assert(cast.ray.direction.x * 0 == 0);
                assert(cast.ray.direction.y * 0 == 0);
                assert(cast.ray.direction.z * 0 == 0);
            }
        },
        _ => {},
    }
}

} // verus!
