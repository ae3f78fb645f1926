use world_core::coords::GridCoord;
use world_core::handle::ObjectHandle;
use world_core::registry::ObjectTypeId;
use world_core::registry::ObjectTypeRegistry;
use world_core::registry::ObjectTypeSpec;
use world_core::registry::Scale3;
use world_core::tile_objects::tile_to_chunk_local;
use world_core::tile_objects::ObjectInstance;
use world_core::tile_objects::ObjectWorld;
use world_core::tile_objects::PlaceError;
use world_core::tile_objects::TileObjectSlot;
use world_core::units::WorldOffset;
use world_core::units::WorldPos;

fn tile(x: i32, z: i32) -> GridCoord {
    GridCoord::new(x, z)
}

fn footprints(sizes: &[(i32, i32)]) -> ObjectTypeRegistry {
    let mut r = ObjectTypeRegistry::new();
    for (i, s) in sizes.iter().enumerate() {
        r.register(ObjectTypeSpec {
            name: format!("t{}", i),
            gltf: String::new(),
            footprint_tiles: tile(s.0, s.1),
            render_scale: Scale3 { x: 1000, y: 1000, z: 1000 },
            hover_radius: 1000,
            scene_offset_local: WorldPos::new(0, 0, 0),
        });
    }
    r
}

fn place(w: &mut ObjectWorld, t: &ObjectTypeRegistry, ty: u16, at: GridCoord) -> Result<ObjectHandle, PlaceError> {
    assert!(!w.is_full());
    w.try_place(t, ObjectTypeId(ty), at)
}

#[test]
fn tiles_split_into_chunk_and_place() {
    assert_eq!(tile_to_chunk_local(tile(0, 0), 16), (tile(0, 0), tile(0, 0)));
    assert_eq!(tile_to_chunk_local(tile(15, 16), 16), (tile(0, 1), tile(15, 0)));
    assert_eq!(tile_to_chunk_local(tile(-1, -16), 16), (tile(-1, -1), tile(15, 0)));
    assert_eq!(tile_to_chunk_local(tile(-17, 33), 16), (tile(-2, 2), tile(15, 1)));
    assert_eq!(
        tile_to_chunk_local(tile(i32::MIN, i32::MAX), 10),
        (tile(-214748365, 214748364), tile(2, 7))
    );
    assert_eq!(tile_to_chunk_local(tile(7, -7), 1), (tile(7, -7), tile(0, 0)));
}

#[test]
fn tile_slots_decode() {
    let free = TileObjectSlot { object_index_plus1: 0, local_x: 0, local_z: 0, flags: 0 };
    assert!(free.is_empty());
    assert_eq!(free.object_index(), None);
    assert!(!free.is_origin());
    let taken = TileObjectSlot { object_index_plus1: 8, local_x: 1, local_z: 2, flags: 1 };
    assert!(!taken.is_empty());
    assert_eq!(taken.object_index(), Some(7));
    assert!(taken.is_origin());
    let last = TileObjectSlot { object_index_plus1: u32::MAX, local_x: 0, local_z: 0, flags: 2 };
    assert_eq!(last.object_index(), Some(u32::MAX - 1));
    assert!(!last.is_origin());
}

#[test]
fn chunk_size_below_one_counts_as_one() {
    assert_eq!(ObjectWorld::new(16).chunk_size(), 16);
    assert_eq!(ObjectWorld::new(0).chunk_size(), 1);
    assert_eq!(ObjectWorld::new(-9).chunk_size(), 1);
}

#[test]
fn placing_takes_up_the_footprint() {
    let t = footprints(&[(2, 3)]);
    let mut w = ObjectWorld::new(4);
    let h = place(&mut w, &t, 0, tile(3, -1)).unwrap();
    assert_eq!(h, ObjectHandle { index: 0, generation: 1 });
    assert_eq!(
        w.get(h),
        Some(&ObjectInstance {
            type_id: ObjectTypeId(0),
            origin_tile: tile(3, -1),
            size_tiles: tile(2, 3),
            center_world: WorldOffset { x: 3500, y: 0, z: -500 },
            yaw: 0,
        })
    );
    for z in -3..5 {
        for x in 0..8 {
            let inside = (3..5).contains(&x) && (-1..2).contains(&z);
            assert_eq!(w.object_at_tile(tile(x, z)), if inside { Some(h) } else { None });
        }
    }
    // The footprint reaches into four chunks of four tiles.
    for (c, dirty) in [((0, -1), true), ((1, -1), true), ((0, 0), true), ((1, 0), true), ((2, 0), false), ((0, 1), false)] {
        assert_eq!(w.chunk_is_dirty(tile(c.0, c.1)), dirty);
    }
}

#[test]
fn occupied_tiles_refuse_and_change_nothing() {
    let t = footprints(&[(2, 2), (1, 1)]);
    let mut w = ObjectWorld::new(8);
    let a = place(&mut w, &t, 0, tile(0, 0)).unwrap();
    assert_eq!(place(&mut w, &t, 0, tile(1, 1)), Err(PlaceError::Occupied));
    assert_eq!(place(&mut w, &t, 0, tile(-1, -1)), Err(PlaceError::Occupied));
    assert_eq!(place(&mut w, &t, 1, tile(1, 0)), Err(PlaceError::Occupied));
    assert_eq!(w.object_at_tile(tile(-1, -1)), None);
    assert_eq!(w.object_at_tile(tile(2, 2)), None);
    assert!(w.get(ObjectHandle { index: 1, generation: 1 }).is_none());
    // Next to it there is room.
    let b = place(&mut w, &t, 0, tile(2, 0)).unwrap();
    assert_eq!(b, ObjectHandle { index: 1, generation: 1 });
    let c = place(&mut w, &t, 1, tile(-1, 0)).unwrap();
    assert_eq!(w.object_at_tile(tile(-1, 0)), Some(c));
    assert_eq!(w.object_at_tile(tile(1, 1)), Some(a));
    assert_eq!(w.object_at_tile(tile(2, 1)), Some(b));
}

#[test]
fn invalid_footprints_are_refused() {
    let t = footprints(&[(0, 1), (1, -1), (256, 1), (1, 256), (255, 255), (1, 1)]);
    let mut w = ObjectWorld::new(8);
    for ty in 0..4 {
        assert_eq!(place(&mut w, &t, ty, tile(0, 0)), Err(PlaceError::InvalidFootprint));
    }
    assert_eq!(place(&mut w, &t, 9, tile(0, 0)), Err(PlaceError::InvalidFootprint));
    assert_eq!(w.object_at_tile(tile(0, 0)), None);
    let big = place(&mut w, &t, 4, tile(-100, -100)).unwrap();
    assert_eq!(w.object_at_tile(tile(-100, -100)), Some(big));
    assert_eq!(w.object_at_tile(tile(154, 154)), Some(big));
    assert_eq!(w.object_at_tile(tile(155, 154)), None);
    assert_eq!(place(&mut w, &t, 5, tile(154, 154)), Err(PlaceError::Occupied));
    assert!(place(&mut w, &t, 5, tile(155, 154)).is_ok());
}

#[test]
fn removing_frees_the_tiles_and_the_slot() {
    let t = footprints(&[(2, 2)]);
    let mut w = ObjectWorld::new(8);
    let a = place(&mut w, &t, 0, tile(0, 0)).unwrap();
    let b = place(&mut w, &t, 0, tile(2, 0)).unwrap();
    w.mark_chunk_clean(tile(0, 0));
    assert!(!w.chunk_is_dirty(tile(0, 0)));
    assert_eq!(w.remove(a), Some(a));
    assert!(w.chunk_is_dirty(tile(0, 0)));
    assert_eq!(w.remove(a), None);
    assert!(w.get(a).is_none());
    for z in 0..2 {
        for x in 0..2 {
            assert_eq!(w.object_at_tile(tile(x, z)), None);
            assert_eq!(w.object_at_tile(tile(x + 2, z)), Some(b));
        }
    }
    // The slot is reused under the next generation; the old handle stays dead.
    let c = place(&mut w, &t, 0, tile(0, 0)).unwrap();
    assert_eq!(c, ObjectHandle { index: 0, generation: 2 });
    assert!(w.get(a).is_none());
    assert_eq!(w.remove(a), None);
    assert_eq!(w.object_at_tile(tile(1, 1)), Some(c));
    assert_eq!(w.remove(ObjectHandle { index: 7, generation: 1 }), None);
}

#[test]
fn removing_at_a_tile_removes_the_whole_object() {
    let t = footprints(&[(3, 1)]);
    let mut w = ObjectWorld::new(2);
    let a = place(&mut w, &t, 0, tile(-1, 5)).unwrap();
    assert_eq!(w.remove_at_tile(tile(0, 4)), None);
    assert_eq!(w.remove_at_tile(tile(1, 5)), Some(a));
    for x in -1..2 {
        assert_eq!(w.object_at_tile(tile(x, 5)), None);
    }
    assert_eq!(w.remove_at_tile(tile(1, 5)), None);
}

#[test]
fn freeform_placement_takes_the_tiles_given() {
    let t = footprints(&[(1, 1), (0, 4)]);
    let mut w = ObjectWorld::new(8);
    let center = WorldOffset { x: 12_345, y: 0, z: -6_789 };
    assert!(!w.is_full());
    let a = w.try_place_freeform(&t, ObjectTypeId(0), tile(5, -4), tile(3, 2), center, 785).unwrap();
    assert_eq!(
        w.get(a),
        Some(&ObjectInstance {
            type_id: ObjectTypeId(0),
            origin_tile: tile(5, -4),
            size_tiles: tile(3, 2),
            center_world: center,
            yaw: 785,
        })
    );
    assert_eq!(w.object_at_tile(tile(7, -3)), Some(a));
    assert_eq!(w.object_at_tile(tile(8, -3)), None);
    let one = tile(1, 1);
    assert_eq!(
        w.try_place_freeform(&t, ObjectTypeId(0), tile(7, -3), one, center, 0),
        Err(PlaceError::Occupied)
    );
    assert_eq!(
        w.try_place_freeform(&t, ObjectTypeId(0), tile(50, 50), tile(256, 1), center, 0),
        Err(PlaceError::InvalidFootprint)
    );
    assert_eq!(
        w.try_place_freeform(&t, ObjectTypeId(0), tile(50, 50), tile(1, 0), center, 0),
        Err(PlaceError::InvalidFootprint)
    );
    assert_eq!(
        w.try_place_freeform(&t, ObjectTypeId(1), tile(50, 50), one, center, 0),
        Err(PlaceError::InvalidFootprint)
    );
    assert_eq!(
        w.try_place_freeform(&t, ObjectTypeId(6), tile(50, 50), one, center, 0),
        Err(PlaceError::InvalidFootprint)
    );
}

#[test]
fn origins_are_listed_chunk_by_chunk() {
    let t = footprints(&[(2, 2), (1, 1)]);
    let mut w = ObjectWorld::new(4);
    let a = place(&mut w, &t, 0, tile(3, 3)).unwrap();
    let b = place(&mut w, &t, 1, tile(1, 0)).unwrap();
    let c = place(&mut w, &t, 1, tile(0, 2)).unwrap();
    let d = place(&mut w, &t, 1, tile(5, 4)).unwrap();
    // Object a reaches into four chunks; its origin is in the first.
    assert_eq!(w.iter_origin_objects_in_chunk(tile(0, 0)), vec![b, c, a]);
    assert_eq!(w.iter_origin_objects_in_chunk(tile(1, 0)), Vec::new());
    assert_eq!(w.iter_origin_objects_in_chunk(tile(1, 1)), vec![d]);
    assert_eq!(w.iter_origin_objects_in_chunk(tile(9, 9)), Vec::new());
    w.remove(b);
    assert_eq!(w.iter_origin_objects_in_chunk(tile(0, 0)), vec![c, a]);
}

#[test]
fn footprints_at_the_edge_of_the_coordinate_range() {
    let t = footprints(&[(2, 2)]);
    let mut w = ObjectWorld::new(8);
    let at = tile(i32::MAX - 1, i32::MIN);
    let a = place(&mut w, &t, 0, at).unwrap();
    assert_eq!(w.object_at_tile(tile(i32::MAX, i32::MIN + 1)), Some(a));
    assert_eq!(w.get(a).unwrap().center_world, WorldOffset {
        x: (i32::MAX as i64 - 1) * 1000 + 500,
        y: 0,
        z: i32::MIN as i64 * 1000 + 500,
    });
    assert_eq!(w.remove_at_tile(tile(i32::MAX, i32::MIN)), Some(a));
}
