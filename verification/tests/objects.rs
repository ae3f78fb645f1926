use world_core::collision::circles_overlap;
use world_core::collision::collision_radius;
use world_core::collision::distance_squared;
use world_core::collision::point_in_circle;
use world_core::coords::GridCoord;
use world_core::handle::ObjectHandle;
use world_core::objects::can_place_non_overlapping;
use world_core::objects::can_place_non_overlapping_spatial;
use world_core::objects::FreeformObjectInstance;
use world_core::objects::FreeformObjectWorld;
use world_core::registry::ObjectTypeId;
use world_core::registry::ObjectTypeRegistry;
use world_core::registry::ObjectTypeSpec;
use world_core::registry::Scale3;
use world_core::units::WorldPos;
use world_core::units::WorldXz;

fn spec(name: &str, hover_radius: i32) -> ObjectTypeSpec {
    ObjectTypeSpec {
        name: name.to_string(),
        gltf: String::new(),
        footprint_tiles: GridCoord::new(1, 1),
        render_scale: Scale3 { x: 1000, y: 1000, z: 1000 },
        hover_radius,
        scene_offset_local: WorldPos::new(0, 0, 0),
    }
}

fn types(radii: &[i32]) -> ObjectTypeRegistry {
    let mut r = ObjectTypeRegistry::new();
    for (i, radius) in radii.iter().enumerate() {
        assert!(!r.is_full());
        r.register(spec(&format!("t{}", i), *radius));
    }
    r
}

fn world() -> FreeformObjectWorld {
    FreeformObjectWorld::new(32, 2000)
}

fn place(w: &mut FreeformObjectWorld, ty: u16, x: i32, z: i32) -> ObjectHandle {
    assert!(!w.is_full());
    w.place(ObjectTypeId(ty), WorldPos::new(x, 0, z), 0)
}

#[test]
fn collision_radius_clamps_to_a_tenth() {
    assert_eq!(collision_radius(1000), 1000);
    assert_eq!(collision_radius(100), 100);
    assert_eq!(collision_radius(99), 100);
    assert_eq!(collision_radius(0), 100);
    assert_eq!(collision_radius(-5000), 100);
    assert_eq!(collision_radius(i32::MAX), i32::MAX);
}

#[test]
fn distance_squared_is_exact() {
    assert_eq!(distance_squared(WorldPos::new(0, 0, 0), WorldPos::new(3, 999, 4)), 25);
    assert_eq!(distance_squared(WorldPos::new(-3, 0, -4), WorldPos::new(0, 0, 0)), 25);
    let far = distance_squared(
        WorldPos::new(i32::MIN, 0, i32::MIN),
        WorldPos::new(i32::MAX, 0, i32::MAX),
    );
    assert_eq!(far, 2 * (u32::MAX as i128) * (u32::MAX as i128));
}

#[test]
fn touching_circles_overlap() {
    let a = WorldPos::new(0, 0, 0);
    // Distance exactly r1 + r2 = 1500 + 500.
    assert!(circles_overlap(a, 1500, WorldPos::new(2000, 0, 0), 500));
    assert!(circles_overlap(a, 1500, WorldPos::new(0, 70, -2000), 500));
    // A 3-4-5 triangle scaled by 400: distance 2000 off the axes.
    assert!(circles_overlap(a, 1500, WorldPos::new(1200, 0, 1600), 500));
    // One unit further apart they do not.
    assert!(!circles_overlap(a, 1500, WorldPos::new(2001, 0, 0), 500));
    assert!(!circles_overlap(a, 1500, WorldPos::new(1200, 0, 1601), 500));
    assert!(!circles_overlap(a, 1500, WorldPos::new(1201, 0, 1600), 500));
    assert!(circles_overlap(a, 1500, WorldPos::new(1999, 0, 0), 500));
}

#[test]
fn circles_overlap_at_the_extremes() {
    let lo = WorldPos::new(i32::MIN, 0, i32::MIN);
    let hi = WorldPos::new(i32::MAX, 0, i32::MAX);
    assert!(!circles_overlap(lo, i32::MAX, hi, i32::MAX));
    assert!(circles_overlap(lo, i32::MAX, WorldPos::new(i32::MAX, 0, i32::MIN), i32::MAX) == false);
    assert!(circles_overlap(
        WorldPos::new(-i32::MAX, 0, 0),
        i32::MAX,
        WorldPos::new(i32::MAX, 0, 0),
        i32::MAX
    ));
}

#[test]
fn point_in_circle_includes_the_rim() {
    let c = WorldPos::new(1000, 5, 1000);
    assert!(point_in_circle(WorldPos::new(1000, 0, 1000), c, 0));
    assert!(point_in_circle(WorldPos::new(1300, 0, 1400), c, 500));
    assert!(!point_in_circle(WorldPos::new(1301, 0, 1400), c, 500));
    assert!(!point_in_circle(WorldPos::new(1001, 0, 1000), c, 0));
}

#[test]
fn place_then_get_round_trips() {
    let mut w = world();
    let pos = WorldPos::new(12345, -678, -91011);
    assert!(!w.is_full());
    let h = w.place(ObjectTypeId(7), pos, 1571);
    assert_eq!(h, ObjectHandle { index: 0, generation: 1 });
    assert_eq!(
        w.get(h),
        Some(&FreeformObjectInstance { type_id: ObjectTypeId(7), position_world: pos, yaw: 1571 })
    );
    let h2 = w.place(ObjectTypeId(8), WorldPos::new(1, 2, 3), -20);
    assert_eq!(h2, ObjectHandle { index: 1, generation: 1 });
    assert_eq!(w.get(h2).unwrap().type_id, ObjectTypeId(8));
    assert_eq!(w.get(h2).unwrap().position_world, WorldPos::new(1, 2, 3));
    assert_eq!(w.get(h2).unwrap().yaw, -20);
    assert_eq!(w.get(h).unwrap().position_world, pos);
}

#[test]
fn get_misses_stale_and_unknown_handles() {
    let mut w = world();
    let h = place(&mut w, 0, 0, 0);
    assert!(w.get(ObjectHandle { index: 0, generation: 2 }).is_none());
    assert!(w.get(ObjectHandle { index: 0, generation: 0 }).is_none());
    assert!(w.get(ObjectHandle { index: 1, generation: 1 }).is_none());
    assert!(w.get(ObjectHandle { index: u32::MAX, generation: 1 }).is_none());
    assert!(w.get(h).is_some());
}

#[test]
fn remove_twice_returns_none_the_second_time() {
    let mut w = world();
    let a = place(&mut w, 0, 0, 0);
    let b = place(&mut w, 1, 5000, 5000);
    assert_eq!(w.remove(a), Some(a));
    assert!(w.get(a).is_none());
    assert_eq!(w.remove(a), None);
    assert_eq!(w.remove(a), None);
    assert_eq!(w.get(b).unwrap().type_id, ObjectTypeId(1));
    assert_eq!(w.get(b).unwrap().position_world, WorldPos::new(5000, 0, 5000));
    assert_eq!(w.grid().cell_of_handle(b), Some(GridCoord::new(0, 0)));
    assert_eq!(w.grid().cell_of_handle(a), None);
}

#[test]
fn remove_misses_are_no_ops() {
    let mut w = world();
    let a = place(&mut w, 0, 0, 0);
    assert_eq!(w.remove(ObjectHandle { index: 0, generation: 9 }), None);
    assert_eq!(w.remove(ObjectHandle { index: 4, generation: 1 }), None);
    assert!(w.get(a).is_some());
    assert_eq!(w.iter_objects_in_chunk(GridCoord::new(0, 0)), vec![a]);
}

#[test]
fn freed_slots_are_reused_under_the_next_generation() {
    let mut w = world();
    let a = place(&mut w, 0, 0, 0);
    let b = place(&mut w, 0, 1000, 0);
    let c = place(&mut w, 0, 2000, 0);
    assert_eq!((a.index, b.index, c.index), (0, 1, 2));
    w.remove(a);
    w.remove(c);
    let d = place(&mut w, 1, 3000, 0);
    assert_eq!(d, ObjectHandle { index: 2, generation: 2 });
    let e = place(&mut w, 1, 4000, 0);
    assert_eq!(e, ObjectHandle { index: 0, generation: 2 });
    let f = place(&mut w, 1, 5000, 0);
    assert_eq!(f, ObjectHandle { index: 3, generation: 1 });
    // The old handles stay dead although their slots are taken again.
    assert!(w.get(a).is_none());
    assert!(w.get(c).is_none());
    assert_eq!(w.remove(a), None);
    assert_eq!(w.get(e).unwrap().position_world, WorldPos::new(4000, 0, 0));
    assert_eq!(w.get(b).unwrap().position_world, WorldPos::new(1000, 0, 0));
}

#[test]
fn placed_objects_are_indexed_by_grid_and_chunk() {
    let mut w = world();
    let a = place(&mut w, 0, 100, 100);
    let b = place(&mut w, 0, 9000, 100);
    let c = place(&mut w, 0, 70000, -100);
    assert_eq!(w.grid().cell_size(), 8000);
    assert_eq!(w.grid().cell_of_handle(a), Some(GridCoord::new(0, 0)));
    assert_eq!(w.grid().cell_of_handle(b), Some(GridCoord::new(1, 0)));
    assert_eq!(w.grid().cell_of_handle(c), Some(GridCoord::new(8, -1)));
    assert_eq!(w.chunk_of(WorldPos::new(70000, 0, -100)), GridCoord::new(1, -1));
    assert_eq!(w.iter_objects_in_chunk(GridCoord::new(0, 0)), vec![a, b]);
    assert_eq!(w.iter_objects_in_chunk(GridCoord::new(1, -1)), vec![c]);
    assert_eq!(w.iter_objects_in_chunk(GridCoord::new(1, 0)), Vec::new());
    w.remove(a);
    assert_eq!(w.iter_objects_in_chunk(GridCoord::new(0, 0)), vec![b]);
    assert_eq!(w.grid().query_candidates(WorldXz::new(0, 0), 8000), vec![b]);
}

#[test]
fn chunks_get_dirty_and_clean() {
    let mut w = world();
    let here = GridCoord::new(0, 0);
    let there = GridCoord::new(-1, 2);
    assert!(!w.chunk_is_dirty(here));
    let a = place(&mut w, 0, 100, 100);
    assert!(w.chunk_is_dirty(here));
    assert!(!w.chunk_is_dirty(there));
    w.mark_chunk_clean(here);
    assert!(!w.chunk_is_dirty(here));
    let b = place(&mut w, 0, -1, 128000);
    assert!(w.chunk_is_dirty(there));
    assert!(!w.chunk_is_dirty(here));
    w.mark_chunk_clean(there);
    w.remove(a);
    assert!(w.chunk_is_dirty(here));
    assert!(!w.chunk_is_dirty(there));
    w.mark_chunk_clean(here);
    assert_eq!(w.remove(a), None);
    assert!(!w.chunk_is_dirty(here));
    assert!(w.get(b).is_some());
}

#[test]
fn chunk_edge_takes_sizes_below_one_as_one() {
    assert!(FreeformObjectWorld::chunk_edge_fits(0, -5));
    let w = FreeformObjectWorld::new(0, -5);
    assert_eq!(w.chunk_of(WorldPos::new(7, 0, -7)), GridCoord::new(7, -7));
    assert!(FreeformObjectWorld::chunk_edge_fits(i32::MAX, 1));
    assert!(FreeformObjectWorld::chunk_edge_fits(-3, i32::MAX));
    let w = FreeformObjectWorld::new(-3, i32::MAX);
    assert_eq!(w.chunk_of(WorldPos::new(i32::MAX - 1, 0, -1)), GridCoord::new(0, -1));
    assert_eq!(w.chunk_of(WorldPos::new(i32::MAX, 0, i32::MIN)), GridCoord::new(1, -2));
    assert!(FreeformObjectWorld::chunk_edge_fits(32768, 65535));
    assert!(!FreeformObjectWorld::chunk_edge_fits(32768, 65536));
    assert!(!FreeformObjectWorld::chunk_edge_fits(i32::MAX, 2));
    assert!(!FreeformObjectWorld::chunk_edge_fits(i32::MAX, i32::MAX));
}

#[test]
fn overlapping_placement_is_refused() {
    // Object A of hover radius 1.0 at the origin; B of hover radius 1.0.
    let t = types(&[1000]);
    let mut w = world();
    place(&mut w, 0, 0, 0);
    assert!(!w.can_place_non_overlapping(&t, ObjectTypeId(0), WorldPos::new(1500, 0, 0)));
    assert!(w.can_place_non_overlapping(&t, ObjectTypeId(0), WorldPos::new(2500, 0, 0)));
    // On the boundary the circles touch, which counts as overlapping.
    assert!(!w.can_place_non_overlapping(&t, ObjectTypeId(0), WorldPos::new(2000, 0, 0)));
    assert!(w.can_place_non_overlapping(&t, ObjectTypeId(0), WorldPos::new(2001, 0, 0)));
    assert!(!w.can_place_non_overlapping(&t, ObjectTypeId(0), WorldPos::new(-1200, 300, 1600)));
    assert!(w.can_place_non_overlapping(&t, ObjectTypeId(0), WorldPos::new(-1200, 300, 1601)));
    assert!(!can_place_non_overlapping_spatial(
        &t,
        ObjectTypeId(0),
        WorldPos::new(1500, 0, 0),
        &w
    ));
    assert!(can_place_non_overlapping_spatial(&t, ObjectTypeId(0), WorldPos::new(2500, 0, 0), &w));
}

#[test]
fn unknown_type_cannot_be_placed() {
    let t = types(&[1000]);
    let w = world();
    assert!(!w.can_place_non_overlapping(&t, ObjectTypeId(1), WorldPos::new(0, 0, 0)));
    assert!(w.can_place_non_overlapping(&t, ObjectTypeId(0), WorldPos::new(0, 0, 0)));
    assert!(!can_place_non_overlapping(&t, ObjectTypeId(9), WorldPos::new(0, 0, 0), &Vec::new()));
    assert!(can_place_non_overlapping(&t, ObjectTypeId(0), WorldPos::new(0, 0, 0), &Vec::new()));
}

#[test]
fn objects_of_unknown_type_are_in_nobodys_way() {
    let t = types(&[1000]);
    let mut w = world();
    place(&mut w, 5, 0, 0);
    assert!(w.can_place_non_overlapping(&t, ObjectTypeId(0), WorldPos::new(0, 0, 0)));
    let existing = vec![(ObjectTypeId(5), WorldPos::new(0, 0, 0))];
    assert!(can_place_non_overlapping(&t, ObjectTypeId(0), WorldPos::new(0, 0, 0), &existing));
}

#[test]
fn removed_objects_are_in_nobodys_way() {
    let t = types(&[1000]);
    let mut w = world();
    let a = place(&mut w, 0, 0, 0);
    assert!(!w.can_place_non_overlapping(&t, ObjectTypeId(0), WorldPos::new(500, 0, 0)));
    w.remove(a);
    assert!(w.can_place_non_overlapping(&t, ObjectTypeId(0), WorldPos::new(500, 0, 0)));
}

#[test]
fn radii_are_clamped_before_the_test() {
    // Both types have a radius below the minimum: each counts as 100.
    let t = types(&[0, -700]);
    let mut w = world();
    place(&mut w, 1, 0, 0);
    assert!(!w.can_place_non_overlapping(&t, ObjectTypeId(0), WorldPos::new(200, 0, 0)));
    assert!(w.can_place_non_overlapping(&t, ObjectTypeId(0), WorldPos::new(201, 0, 0)));
}

#[test]
fn listed_placement_test_uses_each_entrys_own_radius() {
    let t = types(&[1000, 3000]);
    let existing = vec![
        (ObjectTypeId(0), WorldPos::new(10000, 0, 0)),
        (ObjectTypeId(1), WorldPos::new(0, 0, 10000)),
    ];
    let new_type = ObjectTypeId(0);
    assert!(can_place_non_overlapping(&t, new_type, WorldPos::new(0, 0, 0), &existing));
    assert!(!can_place_non_overlapping(&t, new_type, WorldPos::new(8000, 0, 0), &existing));
    assert!(can_place_non_overlapping(&t, new_type, WorldPos::new(7999, 0, 0), &existing));
    assert!(!can_place_non_overlapping(&t, new_type, WorldPos::new(0, 0, 6000), &existing));
    assert!(can_place_non_overlapping(&t, new_type, WorldPos::new(0, 0, 5999), &existing));
}

#[test]
fn placement_test_looks_only_as_far_as_the_new_radius_reaches() {
    // A large object two cells away overlaps the new circle, but the grid is
    // asked only for the cells that the new type's own radius reaches.
    let t = types(&[1000, 30000]);
    let mut w = world();
    place(&mut w, 1, 20000, 0);
    assert!(w.can_place_non_overlapping(&t, ObjectTypeId(0), WorldPos::new(0, 0, 0)));
    let existing = vec![(ObjectTypeId(1), WorldPos::new(20000, 0, 0))];
    assert!(!can_place_non_overlapping(&t, ObjectTypeId(0), WorldPos::new(0, 0, 0), &existing));
    // Placing the large one looks far enough to see the small one.
    let mut w = world();
    place(&mut w, 0, 20000, 0);
    assert!(!w.can_place_non_overlapping(&t, ObjectTypeId(1), WorldPos::new(0, 0, 0)));
}

#[test]
fn pick_hovered_takes_the_nearest_circle_that_holds_the_cursor() {
    let t = types(&[1000, 5000]);
    let mut w = world();
    let small = place(&mut w, 0, 0, 0);
    let large = place(&mut w, 1, 3000, 0);
    // In both circles, nearer to the small one.
    assert_eq!(w.pick_hovered(&t, WorldPos::new(500, 0, 0)), Some(small));
    // Outside the small circle, inside the large one.
    assert_eq!(w.pick_hovered(&t, WorldPos::new(1001, 0, 0)), Some(large));
    // On the rim of the small circle, which is still nearer than the large one's center.
    assert_eq!(w.pick_hovered(&t, WorldPos::new(1000, 0, 0)), Some(small));
    // Nearer to the large one's center.
    assert_eq!(w.pick_hovered(&t, WorldPos::new(3000, 10, 100)), Some(large));
    // In neither.
    assert_eq!(w.pick_hovered(&t, WorldPos::new(3000, 0, 5001)), None);
    assert_eq!(w.pick_hovered(&t, WorldPos::new(3000, 0, 5000)), Some(large));
    w.remove(large);
    assert_eq!(w.pick_hovered(&t, WorldPos::new(1001, 0, 0)), None);
    assert_eq!(w.pick_hovered(&t, WorldPos::new(600, 0, 800)), Some(small));
}

#[test]
fn pick_hovered_reaches_across_cells() {
    let t = types(&[20000]);
    let mut w = world();
    let a = place(&mut w, 0, 0, 0);
    assert_eq!(w.pick_hovered(&t, WorldPos::new(-12000, 0, 16000)), Some(a));
    assert_eq!(w.pick_hovered(&t, WorldPos::new(-12001, 0, 16000)), None);
}

#[test]
fn pick_hovered_skips_unknown_types() {
    let t = types(&[1000]);
    let mut w = world();
    place(&mut w, 3, 0, 0);
    assert_eq!(w.pick_hovered(&t, WorldPos::new(0, 0, 0)), None);
    assert_eq!(w.pick_hovered(&ObjectTypeRegistry::new(), WorldPos::new(0, 0, 0)), None);
}
