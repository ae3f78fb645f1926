use world_core::bounds::compute_render_params;
use world_core::bounds::isqrt;
use world_core::bounds::GltfBounds;
use world_core::registry::Scale3;
use world_core::units::WorldOffset;
use world_core::units::WorldPos;

fn unit_scale() -> Scale3 {
    Scale3 { x: 1000, y: 1000, z: 1000 }
}

#[test]
fn isqrt_floors() {
    assert_eq!(isqrt(0), 0);
    assert_eq!(isqrt(1), 1);
    assert_eq!(isqrt(3), 1);
    assert_eq!(isqrt(4), 2);
    assert_eq!(isqrt(24), 4);
    assert_eq!(isqrt(25), 5);
    assert_eq!(isqrt(26), 5);
    assert_eq!(isqrt(1_000_000_000_000), 1_000_000);
    assert_eq!(isqrt(u128::MAX), u64::MAX);
    assert_eq!(isqrt((u64::MAX as u128) * (u64::MAX as u128)), u64::MAX);
    assert_eq!(isqrt((u64::MAX as u128) * (u64::MAX as u128) - 1), u64::MAX - 1);
}

#[test]
fn bounds_size_and_center() {
    let b = GltfBounds { min: WorldPos::new(-1000, 0, -3000), max: WorldPos::new(3000, 2500, 1000) };
    assert_eq!(b.size(), WorldOffset { x: 4000, y: 2500, z: 4000 });
    assert_eq!(b.center(), WorldPos::new(1000, 1250, -1000));
    let odd = GltfBounds { min: WorldPos::new(-2, -1, 0), max: WorldPos::new(-1, 0, 1) };
    assert_eq!(odd.center(), WorldPos::new(-2, -1, 0));
    let wide = GltfBounds {
        min: WorldPos::new(i32::MIN, i32::MIN, i32::MIN),
        max: WorldPos::new(i32::MAX, i32::MAX, i32::MAX),
    };
    assert_eq!(wide.size(), WorldOffset { x: u32::MAX as i64, y: u32::MAX as i64, z: u32::MAX as i64 });
    assert_eq!(wide.center(), WorldPos::new(-1, -1, -1));
}

#[test]
fn render_params_without_bounds() {
    let s = Scale3 { x: 2000, y: 3000, z: 4000 };
    assert_eq!(compute_render_params(None, s), (s, WorldOffset { x: 0, y: 0, z: 0 }, 1000));
}

#[test]
fn render_params_center_the_model_and_ground_it() {
    // A box 6 by 8 units on the ground plane, 2.5 high, off-center.
    let b = GltfBounds { min: WorldPos::new(-1000, 500, -3000), max: WorldPos::new(5000, 3000, 5000) };
    let (scale, offset, radius) = compute_render_params(Some(b), unit_scale());
    assert_eq!(scale, unit_scale());
    assert_eq!(offset, WorldOffset { x: -2000, y: -500, z: -1000 });
    // Half the diagonal of a 6 by 8 footprint is 5.
    assert_eq!(radius, 5000);
}

#[test]
fn render_params_scale_the_footprint() {
    let b = GltfBounds { min: WorldPos::new(-3000, -100, -4000), max: WorldPos::new(3000, 900, 4000) };
    let s = Scale3 { x: 2000, y: 500, z: -2000 };
    let (_, offset, radius) = compute_render_params(Some(b), s);
    assert_eq!(offset, WorldOffset { x: 0, y: 50, z: 0 });
    // Footprint 12 by 16 after scaling: half the diagonal is 10.
    assert_eq!(radius, 10000);
    let t = Scale3 { x: 1500, y: 1000, z: 1000 };
    let (_, _, radius) = compute_render_params(Some(b), t);
    // Footprint 9 by 8: half of sqrt(145) is 6.0207..., floored.
    assert_eq!(radius, 6020);
}

#[test]
fn render_params_hold_the_radius_at_the_minimum() {
    let point = GltfBounds { min: WorldPos::new(5, 5, 5), max: WorldPos::new(5, 5, 5) };
    assert_eq!(compute_render_params(Some(point), unit_scale()).2, 100);
    let small = GltfBounds { min: WorldPos::new(0, 0, 0), max: WorldPos::new(199, 0, 0) };
    assert_eq!(compute_render_params(Some(small), unit_scale()).2, 100);
    let edge = GltfBounds { min: WorldPos::new(0, 0, 0), max: WorldPos::new(202, 0, 0) };
    assert_eq!(compute_render_params(Some(edge), unit_scale()).2, 101);
    let wide = GltfBounds {
        min: WorldPos::new(i32::MIN, 0, i32::MIN),
        max: WorldPos::new(i32::MAX, 0, i32::MAX),
    };
    let huge = Scale3 { x: i32::MIN, y: 1000, z: i32::MAX };
    let (_, offset, radius) = compute_render_params(Some(wide), huge);
    // Both sides of the footprint are about 2^32 * 2^31 / 1000 wide.
    assert_eq!(radius, 6_521_908_909_629_390);
    // The center is (-1, 0, -1): the offset is its negation, scaled.
    assert_eq!(offset, WorldOffset { x: -2147484, y: 0, z: 2147483 });
}

#[test]
fn render_params_are_wide() {
    let b = GltfBounds {
        min: WorldPos::new(i32::MAX, i32::MIN, i32::MIN),
        max: WorldPos::new(i32::MAX, i32::MIN, i32::MIN),
    };
    let s = Scale3 { x: i32::MAX, y: i32::MAX, z: 1000 };
    let (_, offset, radius) = compute_render_params(Some(b), s);
    assert_eq!(
        offset,
        WorldOffset { x: -4_611_686_014_132_421, y: 4_611_686_016_279_904, z: 2_147_483_648 }
    );
    assert_eq!(radius, 100);
}
