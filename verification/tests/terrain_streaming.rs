use std::collections::HashMap;
use world_core::coords::GridCoord;
use world_core::terrain::TerrainAction;
use world_core::terrain::TerrainConfig;
use world_core::terrain::TerrainWorld;
use world_core::units::WorldOffset;
use world_core::units::WorldXz;

fn config(view: i32, budget: usize) -> TerrainConfig {
    TerrainConfig {
        seed: 7,
        chunk_size: 32,
        tile_size: 2000,
        view_distance_chunks: view,
        chunk_spawn_budget_per_frame: budget,
        noise_base_frequency: 20_000,
        noise_octaves: 4,
        noise_persistence: 500_000,
        height_scale: 8000,
    }
}

fn world(view: i32, budget: usize) -> TerrainWorld {
    let c = config(view, budget);
    assert!(c.is_valid());
    TerrainWorld::new(c)
}

fn spawns(actions: &[TerrainAction]) -> Vec<GridCoord> {
    let mut out = Vec::new();
    for a in actions {
        if let TerrainAction::SpawnChunk(c) = a {
            out.push(*c);
        }
    }
    out
}

fn despawns(actions: &[TerrainAction]) -> Vec<GridCoord> {
    let mut out = Vec::new();
    for a in actions {
        if let TerrainAction::DespawnChunk(c) = a {
            out.push(*c);
        }
    }
    out
}

#[test]
fn config_validity() {
    assert!(config(1, 32).is_valid());
    assert!(config(0, 1).is_valid());
    assert!(!config(-1, 32).is_valid());
    assert!(!config(1, 0).is_valid());
    let mut c = config(1, 1);
    c.chunk_size = 0;
    assert!(!c.is_valid());
    c.chunk_size = 32768;
    assert!(!c.is_valid());
    c.chunk_size = 32767;
    c.tile_size = 65536;
    assert!(c.is_valid());
    c.tile_size = 65540;
    assert!(!c.is_valid());
    c.tile_size = 0;
    assert!(!c.is_valid());
}

#[test]
fn default_config_is_valid() {
    let c = TerrainConfig::default();
    assert!(c.is_valid());
    assert_eq!(c.seed, 12345);
    assert_eq!(c.chunk_size, 32);
    assert_eq!(c.tile_size, 2000);
    assert_eq!(c.view_distance_chunks, 8);
    assert_eq!(c.chunk_spawn_budget_per_frame, 32);
    assert_eq!(c.noise_base_frequency, 20_000);
    assert_eq!(c.noise_octaves, 4);
    assert_eq!(c.noise_persistence, 500_000);
    assert_eq!(c.height_scale, 8000);
    // Seventeen chunks a side: 289 spawns, 32 a tick.
    let mut w = TerrainWorld::new(c);
    let mut total = 0;
    let mut ticks = 0;
    loop {
        let a = w.tick();
        if a.is_empty() {
            break;
        }
        assert!(a.len() <= 32);
        total += a.len();
        ticks += 1;
    }
    assert_eq!(total, 289);
    assert_eq!(ticks, 10);
}

#[test]
fn chunk_world_size_is_product() {
    assert_eq!(config(1, 32).chunk_world_size(), 64000);
}

#[test]
fn viewer_at_origin_spawns_three_by_three() {
    let mut w = world(1, 32);
    w.set_viewer_world_xz(WorldXz::new(0, 0));
    assert_eq!(w.viewer_chunk(), GridCoord::new(0, 0));
    let actions = w.tick();
    assert_eq!(actions.len(), 9);
    assert_eq!(
        spawns(&actions),
        vec![
            GridCoord::new(-1, -1),
            GridCoord::new(0, -1),
            GridCoord::new(1, -1),
            GridCoord::new(-1, 0),
            GridCoord::new(0, 0),
            GridCoord::new(1, 0),
            GridCoord::new(-1, 1),
            GridCoord::new(0, 1),
            GridCoord::new(1, 1),
        ]
    );
    for z in -1..=1 {
        for x in -1..=1 {
            assert!(w.is_loaded(GridCoord::new(x, z)));
        }
    }
    assert!(!w.is_loaded(GridCoord::new(2, 0)));
    assert_eq!(w.tick(), Vec::new());
}

#[test]
fn moving_one_chunk_shifts_the_window() {
    let mut w = world(1, 32);
    w.set_viewer_world_xz(WorldXz::new(0, 0));
    let first = w.tick();
    assert_eq!(first.len(), 9);

    w.set_viewer_world_xz(WorldXz::new(64000, 0));
    assert_eq!(w.viewer_chunk(), GridCoord::new(1, 0));
    let second = w.tick();
    assert_eq!(second.len(), 6);
    assert_eq!(
        second,
        vec![
            TerrainAction::DespawnChunk(GridCoord::new(-1, -1)),
            TerrainAction::DespawnChunk(GridCoord::new(-1, 0)),
            TerrainAction::DespawnChunk(GridCoord::new(-1, 1)),
            TerrainAction::SpawnChunk(GridCoord::new(2, -1)),
            TerrainAction::SpawnChunk(GridCoord::new(2, 0)),
            TerrainAction::SpawnChunk(GridCoord::new(2, 1)),
        ]
    );
    assert_eq!(despawns(&second).len(), 3);
    assert_eq!(spawns(&second).len(), 3);
    for z in -1..=1 {
        assert!(!w.is_loaded(GridCoord::new(-1, z)));
        for x in 0..=2 {
            assert!(w.is_loaded(GridCoord::new(x, z)));
        }
    }
}

#[test]
fn moving_within_a_chunk_changes_nothing() {
    let mut w = world(1, 32);
    w.set_viewer_world_xz(WorldXz::new(0, 0));
    w.tick();
    w.set_viewer_world_xz(WorldXz::new(63999, 63999));
    assert_eq!(w.viewer_chunk(), GridCoord::new(0, 0));
    assert_eq!(w.tick(), Vec::new());
}

#[test]
fn negative_positions_floor_to_negative_chunks() {
    let mut w = world(0, 4);
    w.set_viewer_world_xz(WorldXz::new(-1, -64001));
    assert_eq!(w.viewer_chunk(), GridCoord::new(-1, -2));
    assert_eq!(w.tick(), vec![TerrainAction::SpawnChunk(GridCoord::new(-1, -2))]);
}

#[test]
fn budget_caps_actions_per_tick() {
    let mut w = world(1, 4);
    w.set_viewer_world_xz(WorldXz::new(0, 0));
    let a = w.tick();
    let b = w.tick();
    let c = w.tick();
    let d = w.tick();
    assert_eq!(spawns(&a).len(), 4);
    assert_eq!(spawns(&b).len(), 4);
    assert_eq!(spawns(&c).len(), 1);
    assert_eq!(d.len(), 0);
    let mut all = spawns(&a);
    all.extend(spawns(&b));
    all.extend(spawns(&c));
    assert_eq!(all.len(), 9);
    for (i, x) in all.iter().enumerate() {
        for (j, y) in all.iter().enumerate() {
            assert_eq!(x == y, i == j);
        }
    }
    // The fifth chunk of the window is entry 4 of the queue: tick 4 / 4 + 1.
    assert!(spawns(&b).contains(&GridCoord::new(0, 0)));
    assert!(!spawns(&a).contains(&GridCoord::new(0, 0)));
    assert!(!spawns(&c).contains(&GridCoord::new(0, 0)));
}

#[test]
fn despawns_and_spawns_are_budgeted_separately() {
    let mut w = world(1, 2);
    w.set_viewer_world_xz(WorldXz::new(0, 0));
    for _ in 0..5 {
        w.tick();
    }
    w.set_viewer_world_xz(WorldXz::new(64000 * 10, 0));
    let a = w.tick();
    assert_eq!(despawns(&a).len(), 2);
    assert_eq!(spawns(&a).len(), 2);
    assert_eq!(a.len(), 4);
    assert!(matches!(a[0], TerrainAction::DespawnChunk(_)));
    assert!(matches!(a[1], TerrainAction::DespawnChunk(_)));
    assert!(matches!(a[2], TerrainAction::SpawnChunk(_)));
    assert!(matches!(a[3], TerrainAction::SpawnChunk(_)));
    let mut despawned = 2;
    let mut spawned = 2;
    for _ in 0..10 {
        let t = w.tick();
        despawned += despawns(&t).len();
        spawned += spawns(&t).len();
    }
    assert_eq!(despawned, 9);
    assert_eq!(spawned, 9);
}

#[test]
fn leaving_before_the_queue_is_drained_retargets() {
    let mut w = world(1, 3);
    w.set_viewer_world_xz(WorldXz::new(0, 0));
    let a = w.tick();
    assert_eq!(spawns(&a).len(), 3);
    // Only the row z = -1 is loaded. Jump far away: it must go, and nothing
    // of the old window is spawned any more.
    w.set_viewer_world_xz(WorldXz::new(64000 * 100, 64000 * 100));
    let b = w.tick();
    assert_eq!(
        despawns(&b),
        vec![GridCoord::new(-1, -1), GridCoord::new(0, -1), GridCoord::new(1, -1)]
    );
    assert_eq!(
        spawns(&b),
        vec![GridCoord::new(99, 99), GridCoord::new(100, 99), GridCoord::new(101, 99)]
    );
}

#[test]
fn window_is_clipped_at_the_edge_of_the_coordinate_range() {
    let mut c = config(1, 100);
    c.chunk_size = 1;
    c.tile_size = 1;
    assert!(c.is_valid());
    let mut w = TerrainWorld::new(c);
    w.set_viewer_world_xz(WorldXz::new(i32::MAX, i32::MIN));
    assert_eq!(w.viewer_chunk(), GridCoord::new(i32::MAX, i32::MIN));
    let a = w.tick();
    assert_eq!(
        spawns(&a),
        vec![
            GridCoord::new(i32::MAX - 1, i32::MIN),
            GridCoord::new(i32::MAX, i32::MIN),
            GridCoord::new(i32::MAX - 1, i32::MIN + 1),
            GridCoord::new(i32::MAX, i32::MIN + 1),
        ]
    );
}

#[test]
fn chunk_origin_world_scales_by_chunk_edge() {
    let w = world(1, 1);
    assert_eq!(w.chunk_origin_world(GridCoord::new(0, 0)), WorldOffset { x: 0, y: 0, z: 0 });
    assert_eq!(
        w.chunk_origin_world(GridCoord::new(2, -3)),
        WorldOffset { x: 128000, y: 0, z: -192000 }
    );
    assert_eq!(
        w.chunk_origin_world(GridCoord::new(i32::MAX, i32::MIN)),
        WorldOffset { x: i32::MAX as i64 * 64000, y: 0, z: i32::MIN as i64 * 64000 }
    );
}

#[test]
fn accessors_report_what_was_set() {
    let mut w = world(2, 5);
    assert_eq!(w.config(), config(2, 5));
    assert_eq!(w.viewer(), WorldXz::new(0, 0));
    w.set_viewer_world_xz(WorldXz::new(-5, 9));
    assert_eq!(w.viewer(), WorldXz::new(-5, 9));
    assert_eq!(w.config(), config(2, 5));
}

#[test]
fn actions_on_a_chunk_alternate_wherever_the_viewer_goes() {
    let mut w = world(2, 3);
    let mut loaded: HashMap<(i32, i32), bool> = HashMap::new();
    let mut seed: u64 = 12345;
    for step in 0..400 {
        seed = seed.wrapping_mul(6364136223846793005).wrapping_add(1442695040888963407);
        if step % 3 == 0 {
            let x = ((seed >> 33) % 7) as i32 - 3;
            let z = ((seed >> 40) % 7) as i32 - 3;
            w.set_viewer_world_xz(WorldXz::new(x * 64000 + 5, z * 64000 + 5));
        }
        let center = w.viewer_chunk();
        let actions = w.tick();
        assert!(actions.len() <= 6);
        for a in &actions {
            match a {
                TerrainAction::SpawnChunk(c) => {
                    assert!(!loaded.get(&(c.x, c.z)).copied().unwrap_or(false));
                    assert!(c.within(center, 2));
                    loaded.insert((c.x, c.z), true);
                },
                TerrainAction::DespawnChunk(c) => {
                    assert!(loaded.get(&(c.x, c.z)).copied().unwrap_or(false));
                    assert!(!c.within(center, 2));
                    loaded.insert((c.x, c.z), false);
                },
            }
        }
        for (k, v) in &loaded {
            assert_eq!(w.is_loaded(GridCoord::new(k.0, k.1)), *v);
        }
    }
}
