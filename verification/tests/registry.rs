use world_core::coords::GridCoord;
use world_core::registry::ObjectTypeId;
use world_core::registry::ObjectTypeRegistry;
use world_core::registry::ObjectTypeSpec;
use world_core::registry::Scale3;
use world_core::registry::MIN_HOVER_RADIUS;
use world_core::units::WorldPos;

fn spec(name: &str, hover_radius: i32) -> ObjectTypeSpec {
    ObjectTypeSpec {
        name: name.to_string(),
        gltf: format!("models/{}.gltf", name),
        footprint_tiles: GridCoord::new(1, 1),
        render_scale: Scale3 { x: 1000, y: 1000, z: 1000 },
        hover_radius,
        scene_offset_local: WorldPos::new(0, 0, 0),
    }
}

#[test]
fn register_appends_ids_in_order() {
    let mut r = ObjectTypeRegistry::new();
    assert!(!r.is_full());
    assert_eq!(r.register(spec("a", 1000)), ObjectTypeId(0));
    assert_eq!(r.register(spec("b", 2000)), ObjectTypeId(1));
    assert_eq!(r.register(spec("c", 3000)), ObjectTypeId(2));
    assert_eq!(r.get(ObjectTypeId(0)).unwrap().name, "a");
    assert_eq!(r.get(ObjectTypeId(1)).unwrap().name, "b");
    assert_eq!(r.get(ObjectTypeId(2)).unwrap().hover_radius, 3000);
    assert_eq!(r.get(ObjectTypeId(2)).unwrap().gltf, "models/c.gltf");
}

#[test]
fn registry_get_misses_unknown_ids() {
    let mut r = ObjectTypeRegistry::new();
    assert!(r.get(ObjectTypeId(0)).is_none());
    r.register(spec("a", 1000));
    assert!(r.get(ObjectTypeId(1)).is_none());
    assert!(r.get(ObjectTypeId(u16::MAX)).is_none());
}

#[test]
fn removed_ids_are_reused_last_freed_first() {
    let mut r = ObjectTypeRegistry::new();
    for n in ["a", "b", "c", "d"] {
        r.register(spec(n, 1000));
    }
    assert_eq!(r.remove(ObjectTypeId(1)).unwrap().name, "b");
    assert_eq!(r.remove(ObjectTypeId(3)).unwrap().name, "d");
    assert!(r.get(ObjectTypeId(1)).is_none());
    assert!(r.get(ObjectTypeId(3)).is_none());
    assert_eq!(r.get(ObjectTypeId(0)).unwrap().name, "a");
    assert_eq!(r.get(ObjectTypeId(2)).unwrap().name, "c");

    assert_eq!(r.register(spec("e", 1000)), ObjectTypeId(3));
    assert_eq!(r.register(spec("f", 1000)), ObjectTypeId(1));
    assert_eq!(r.register(spec("g", 1000)), ObjectTypeId(4));
    assert_eq!(r.get(ObjectTypeId(1)).unwrap().name, "f");
    assert_eq!(r.get(ObjectTypeId(3)).unwrap().name, "e");
}

#[test]
fn registry_remove_misses_are_no_ops() {
    let mut r = ObjectTypeRegistry::new();
    r.register(spec("a", 1000));
    assert!(r.remove(ObjectTypeId(5)).is_none());
    assert!(r.remove(ObjectTypeId(0)).is_some());
    assert!(r.remove(ObjectTypeId(0)).is_none());
    assert_eq!(r.register(spec("b", 1000)), ObjectTypeId(0));
    assert_eq!(r.register(spec("c", 1000)), ObjectTypeId(1));
}

#[test]
fn max_hover_radius_is_the_largest_clamped_radius() {
    let mut r = ObjectTypeRegistry::new();
    assert_eq!(r.max_hover_radius(), 0);
    r.register(spec("tiny", 5));
    assert_eq!(r.max_hover_radius(), MIN_HOVER_RADIUS);
    r.register(spec("negative", -4000));
    assert_eq!(r.max_hover_radius(), 100);
    r.register(spec("big", 2500));
    assert_eq!(r.max_hover_radius(), 2500);
    r.register(spec("mid", 1000));
    assert_eq!(r.max_hover_radius(), 2500);
    r.remove(ObjectTypeId(2));
    assert_eq!(r.max_hover_radius(), 2500);
}

#[test]
fn registry_fills_up_at_the_end_of_the_id_range() {
    let mut r = ObjectTypeRegistry::new();
    for i in 0..65536u32 {
        assert!(!r.is_full());
        assert_eq!(r.register(spec("x", 1000)), ObjectTypeId(i as u16));
    }
    assert!(r.is_full());
    assert!(r.remove(ObjectTypeId(12345)).is_some());
    assert!(!r.is_full());
    assert_eq!(r.register(spec("y", 1000)), ObjectTypeId(12345));
    assert!(r.is_full());
    assert_eq!(r.get(ObjectTypeId(u16::MAX)).unwrap().name, "x");
}
