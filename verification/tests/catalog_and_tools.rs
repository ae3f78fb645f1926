use world_core::coords::GridCoord;
use world_core::catalog::missing_object_defs;
use world_core::catalog::ObjectTypes;
use world_core::handle::ObjectHandle;
use world_core::interaction::handle_build_destroy_click;
use world_core::interaction::update_hovered_object;
use world_core::interaction::ToolbarMode;
use world_core::objects::FreeformObjectInstance;
use world_core::objects::FreeformObjectWorld;
use world_core::registry::ObjectTypeId;
use world_core::registry::ObjectTypeSpec;
use world_core::registry::Scale3;
use world_core::tiles::Srgb8;
use world_core::tiles::TileType;
use world_core::tiles::TileTypes;
use world_core::units::WorldPos;

fn object_spec(name: &str, hover_radius: i32) -> ObjectTypeSpec {
    ObjectTypeSpec {
        name: name.to_string(),
        gltf: format!("{}.gltf", name),
        footprint_tiles: GridCoord::new(1, 1),
        render_scale: Scale3 { x: 1000, y: 1000, z: 1000 },
        hover_radius,
        scene_offset_local: WorldPos::new(0, 0, 0),
    }
}

#[test]
fn catalog_registers_definitions_in_order() {
    let t = ObjectTypes::from_specs(vec![
        object_spec("house", 2000),
        object_spec("tree", 500),
        object_spec("rock", 800),
    ]);
    assert_eq!(t.available, vec![ObjectTypeId(0), ObjectTypeId(1), ObjectTypeId(2)]);
    assert_eq!(t.registry.get(ObjectTypeId(0)).unwrap().name, "house");
    assert_eq!(t.registry.get(ObjectTypeId(1)).unwrap().name, "tree");
    assert_eq!(t.registry.get(ObjectTypeId(2)).unwrap().hover_radius, 800);
    assert!(t.registry.get(ObjectTypeId(3)).is_none());
    assert_eq!(t.registry.max_hover_radius(), 2000);
    assert_eq!(t.default_object(), Some(ObjectTypeId(0)));
}

#[test]
fn catalog_knows_the_largest_clamped_radius() {
    let t = ObjectTypes::from_specs(vec![object_spec("a", 5), object_spec("b", -900)]);
    assert_eq!(t.registry.max_hover_radius(), 100);
    let t = ObjectTypes::from_specs(vec![
        object_spec("a", 700),
        object_spec("b", 2500),
        object_spec("c", 50),
    ]);
    assert_eq!(t.registry.max_hover_radius(), 2500);
}

#[test]
fn empty_catalog_gets_the_placeholder() {
    let t = ObjectTypes::from_specs(Vec::new());
    assert_eq!(t.available, vec![ObjectTypeId(0)]);
    let spec = t.registry.get(ObjectTypeId(0)).unwrap();
    assert_eq!(spec.name, "MissingObjectDefs");
    assert_eq!(spec.gltf, "");
    assert_eq!(spec.render_scale, Scale3 { x: 1000, y: 1000, z: 1000 });
    assert_eq!(spec.hover_radius, 1000);
    assert_eq!(spec.scene_offset_local, WorldPos::new(0, 0, 0));
    assert!(t.registry.get(ObjectTypeId(1)).is_none());
    assert_eq!(t.registry.max_hover_radius(), 1000);
    assert_eq!(t.default_object(), Some(ObjectTypeId(0)));
    assert_eq!(missing_object_defs().name, "MissingObjectDefs");
}

#[test]
fn atlas_has_one_opaque_texel_a_tile() {
    let mut tiles = Vec::new();
    for (i, c) in [(10u8, 20u8, 30u8), (0, 0, 0), (255, 128, 1)].iter().enumerate() {
        tiles.push(TileType {
            name: format!("t{}", i),
            color_srgb: Srgb8 { r: c.0, g: c.1, b: c.2 },
            height_lt: i as i32,
        });
    }
    let t = TileTypes { tiles };
    assert_eq!(t.atlas_rgba(), vec![10, 20, 30, 255, 0, 0, 0, 255, 255, 128, 1, 255]);
    assert_eq!(TileTypes { tiles: Vec::new() }.atlas_rgba(), Vec::<u8>::new());
}

#[test]
fn hovering_needs_a_cursor_on_the_terrain() {
    let t = ObjectTypes::from_specs(vec![object_spec("house", 2000)]);
    let mut w = FreeformObjectWorld::new(32, 2000);
    let h = w.place(ObjectTypeId(0), WorldPos::new(0, 0, 0), 0);
    assert_eq!(update_hovered_object(None, &w, &t.registry), None);
    assert_eq!(update_hovered_object(Some(WorldPos::new(100, 0, 100)), &w, &t.registry), Some(h));
    assert_eq!(update_hovered_object(Some(WorldPos::new(5000, 0, 0)), &w, &t.registry), None);
}

#[test]
fn building_places_where_nothing_is_in_the_way() {
    let t = ObjectTypes::from_specs(vec![object_spec("house", 1000)]);
    let mut w = FreeformObjectWorld::new(32, 2000);
    let build = ToolbarMode::Construct { object: ObjectTypeId(0) };
    let at = WorldPos::new(0, 700, 0);

    let a = handle_build_destroy_click(build, Some(at), 1571, &t.registry, &mut w, None);
    assert_eq!(a, Some(ObjectHandle { index: 0, generation: 1 }));
    assert_eq!(
        w.get(a.unwrap()),
        Some(&FreeformObjectInstance { type_id: ObjectTypeId(0), position_world: at, yaw: 1571 })
    );

    // Overlapping: refused, and nothing changes.
    let near = Some(WorldPos::new(1500, 0, 0));
    assert_eq!(handle_build_destroy_click(build, near, 0, &t.registry, &mut w, None), None);
    assert!(w.get(ObjectHandle { index: 1, generation: 1 }).is_none());
    // Clear of it: placed.
    let far = Some(WorldPos::new(2500, 0, 0));
    let b = handle_build_destroy_click(build, far, 0, &t.registry, &mut w, None);
    assert_eq!(b, Some(ObjectHandle { index: 1, generation: 1 }));
    // Off the terrain, or with an unknown type: refused.
    assert_eq!(handle_build_destroy_click(build, None, 0, &t.registry, &mut w, None), None);
    let unknown = ToolbarMode::Construct { object: ObjectTypeId(9) };
    let free = Some(WorldPos::new(50000, 0, 50000));
    assert_eq!(handle_build_destroy_click(unknown, free, 0, &t.registry, &mut w, None), None);
}

#[test]
fn destroying_removes_the_hovered_object() {
    let t = ObjectTypes::from_specs(vec![object_spec("house", 1000)]);
    let mut w = FreeformObjectWorld::new(32, 2000);
    let h = w.place(ObjectTypeId(0), WorldPos::new(0, 0, 0), 0);
    let cursor = Some(WorldPos::new(10, 0, 10));
    let destroy = ToolbarMode::Destroy;
    assert_eq!(handle_build_destroy_click(destroy, cursor, 0, &t.registry, &mut w, None), None);
    assert!(w.get(h).is_some());
    assert_eq!(handle_build_destroy_click(destroy, cursor, 0, &t.registry, &mut w, Some(h)), Some(h));
    assert!(w.get(h).is_none());
    assert_eq!(handle_build_destroy_click(destroy, cursor, 0, &t.registry, &mut w, Some(h)), None);
}

#[test]
fn without_a_tool_a_click_does_nothing() {
    let t = ObjectTypes::from_specs(vec![object_spec("house", 1000)]);
    let mut w = FreeformObjectWorld::new(32, 2000);
    let h = w.place(ObjectTypeId(0), WorldPos::new(0, 0, 0), 0);
    let cursor = Some(WorldPos::new(10000, 0, 10000));
    let idle = ToolbarMode::Idle;
    assert_eq!(handle_build_destroy_click(idle, cursor, 0, &t.registry, &mut w, Some(h)), None);
    assert!(w.get(h).is_some());
    assert!(w.get(ObjectHandle { index: 1, generation: 1 }).is_none());
}
