use world_core::coords::GridCoord;
use world_core::mesh::ChunkMeshData;
use world_core::mesh::NormalDir;
use world_core::terrain::TerrainConfig;
use world_core::terrain::TerrainWorld;
use world_core::tiles::Srgb8;
use world_core::tiles::TileType;
use world_core::tiles::TileTypes;
use world_core::units::WorldOffset;
use world_core::units::WorldPos;

fn world(chunk_size: i32, tile_size: i32) -> TerrainWorld {
    let c = TerrainConfig {
        seed: 1,
        chunk_size,
        tile_size,
        view_distance_chunks: 1,
        chunk_spawn_budget_per_frame: 8,
        noise_base_frequency: 20_000,
        noise_octaves: 3,
        noise_persistence: 500_000,
        height_scale: 8000,
    };
    assert!(c.is_valid());
    TerrainWorld::new(c)
}

fn tiles() -> TileTypes {
    let mut tiles = Vec::new();
    for (name, lt) in [("water", -3000), ("sand", -1000), ("grass", 3000), ("rock", 6000), ("snow", 1000000)] {
        tiles.push(TileType {
            name: name.to_string(),
            color_srgb: Srgb8 { r: 0, g: 0, b: 0 },
            height_lt: lt,
        });
    }
    let t = TileTypes { tiles };
    assert!(t.validate().is_ok());
    t
}

fn build(w: &TerrainWorld, heights: &Vec<i32>) -> ChunkMeshData {
    let n = w.config().chunk_size as usize;
    assert_eq!(heights.len(), (n + 1) * (n + 1));
    w.build_chunk_mesh_data(heights, &tiles())
}

#[test]
fn single_flat_tile() {
    let w = world(1, 2000);
    let m = build(&w, &vec![0, 0, 0, 0]);
    assert_eq!(
        m.positions,
        vec![
            WorldPos { x: 0, y: 0, z: 0 },
            WorldPos { x: 2000, y: 0, z: 0 },
            WorldPos { x: 0, y: 0, z: 2000 },
            WorldPos { x: 2000, y: 0, z: 2000 },
        ]
    );
    assert_eq!(m.normals, vec![NormalDir { x: 0, y: 2000, z: 0 }; 4]);
    assert_eq!(m.tile_indices, vec![2, 2, 2, 2]);
    assert_eq!(m.indices, vec![0, 2, 1, 1, 2, 3]);
}

#[test]
fn single_sloped_tile() {
    let w = world(1, 1000);
    // Heights rise by 500 along x and by 250 along z.
    let m = build(&w, &vec![0, 500, 250, 750]);
    assert_eq!(
        m.positions,
        vec![
            WorldPos { x: 0, y: 0, z: 0 },
            WorldPos { x: 1000, y: 500, z: 0 },
            WorldPos { x: 0, y: 250, z: 1000 },
            WorldPos { x: 1000, y: 750, z: 1000 },
        ]
    );
    // Both spans are one tile: the normal is (-dh_x, tile_size, -dh_z).
    assert_eq!(m.normals, vec![NormalDir { x: -500, y: 1000, z: -250 }; 4]);
    // Average height 375 is grass.
    assert_eq!(m.tile_indices, vec![2, 2, 2, 2]);
}

#[test]
fn two_by_two_chunk_layout() {
    let w = world(2, 1000);
    // Rows along z: (0, 0, 0), (0, 4000, 8000), (0, 8000, 16000).
    let heights = vec![0, 0, 0, 0, 4000, 8000, 0, 8000, 16000];
    let m = build(&w, &heights);
    assert_eq!(m.positions.len(), 16);
    assert_eq!(m.normals.len(), 16);
    assert_eq!(m.tile_indices.len(), 16);
    assert_eq!(m.indices.len(), 24);

    // Tile (1, 0) is the second tile: vertices 4..8.
    assert_eq!(m.positions[4], WorldPos { x: 1000, y: 0, z: 0 });
    assert_eq!(m.positions[5], WorldPos { x: 2000, y: 0, z: 0 });
    assert_eq!(m.positions[6], WorldPos { x: 1000, y: 4000, z: 1000 });
    assert_eq!(m.positions[7], WorldPos { x: 2000, y: 8000, z: 1000 });
    // Tile (0, 1) is the third tile: vertices 8..12.
    assert_eq!(m.positions[8], WorldPos { x: 0, y: 0, z: 1000 });
    assert_eq!(m.positions[11], WorldPos { x: 1000, y: 8000, z: 2000 });
    // Tile (1, 1) is the last: vertices 12..16.
    assert_eq!(m.positions[15], WorldPos { x: 2000, y: 16000, z: 2000 });

    assert_eq!(
        m.indices,
        vec![0, 2, 1, 1, 2, 3, 4, 6, 5, 5, 6, 7, 8, 10, 9, 9, 10, 11, 12, 14, 13, 13, 14, 15]
    );

    // Averages: 1000 (grass), 3000 (rock), 3000 (rock), 9000 (snow).
    assert_eq!(m.tile_indices[0..4], [2, 2, 2, 2]);
    assert_eq!(m.tile_indices[4..8], [3, 3, 3, 3]);
    assert_eq!(m.tile_indices[8..12], [3, 3, 3, 3]);
    assert_eq!(m.tile_indices[12..16], [4, 4, 4, 4]);

    // The center vertex (1, 1) has both neighbours on each axis: spans of two.
    // dh_x = 8000 - 0, dh_z = 8000 - 0: (-8000 * 2, 2 * 2 * 1000, -8000 * 2).
    let center = NormalDir { x: -16000, y: 4000, z: -16000 };
    assert_eq!(m.normals[3], center);
    assert_eq!(m.normals[6], center);
    assert_eq!(m.normals[9], center);
    assert_eq!(m.normals[12], center);
    // The corner (0, 0) is held at the edge on both axes: spans of one.
    assert_eq!(m.normals[0], NormalDir { x: 0, y: 1000, z: 0 });
    // The edge vertex (2, 1): span one along x (8000 - 4000), two along z (16000 - 0).
    assert_eq!(m.normals[7], NormalDir { x: -4000 * 2, y: 1 * 2 * 1000, z: -16000 * 1 });
}

#[test]
fn negative_average_floors() {
    let w = world(1, 1000);
    // Sum -4001: the average is just below -1000, which sand claims.
    let m = build(&w, &vec![-1000, -1000, -1000, -1001]);
    assert_eq!(m.tile_indices, vec![1, 1, 1, 1]);
    // Sum -4000: the average is exactly -1000, which sand's threshold excludes.
    let m = build(&w, &vec![-1000, -1000, -1000, -1000]);
    assert_eq!(m.tile_indices, vec![2, 2, 2, 2]);
    // Sum -11999: the average -2999.75 is above water's threshold.
    let m = build(&w, &vec![-3000, -3000, -3000, -2999]);
    assert_eq!(m.tile_indices, vec![1, 1, 1, 1]);
    // Sum -12001: below it.
    let m = build(&w, &vec![-3000, -3000, -3000, -3001]);
    assert_eq!(m.tile_indices, vec![0, 0, 0, 0]);
}

#[test]
fn triangles_face_up() {
    let w = world(3, 1500);
    let mut heights = Vec::new();
    for i in 0..16 {
        heights.push((i * 7919 % 5000) as i32 - 2500);
    }
    let m = build(&w, &heights);
    assert_eq!(m.indices.len(), 54);
    for t in 0..(m.indices.len() / 3) {
        let a = m.positions[m.indices[3 * t] as usize];
        let b = m.positions[m.indices[3 * t + 1] as usize];
        let c = m.positions[m.indices[3 * t + 2] as usize];
        let up = (b.z as i64 - a.z as i64) * (c.x as i64 - a.x as i64)
            - (b.x as i64 - a.x as i64) * (c.z as i64 - a.z as i64);
        assert_eq!(up, 1500 * 1500);
    }
    for n in &m.normals {
        assert!(n.y > 0);
    }
}

#[test]
fn extreme_heights_do_not_overflow() {
    let w = world(1, i32::MAX);
    let m = build(&w, &vec![i32::MIN, i32::MAX, i32::MAX, i32::MIN]);
    assert_eq!(m.positions[3], WorldPos { x: i32::MAX, y: i32::MIN, z: i32::MAX });
    assert_eq!(
        m.normals[0],
        NormalDir {
            x: -(i32::MAX as i64 - i32::MIN as i64),
            y: i32::MAX as i64,
            z: -(i32::MAX as i64 - i32::MIN as i64),
        }
    );
    // Sum -2, average -0.5, floored to -1: grass.
    assert_eq!(m.tile_indices, vec![2, 2, 2, 2]);
}

#[test]
fn sample_points_are_the_grid_vertices_in_the_world() {
    let w = world(2, 1500);
    let p = w.chunk_sample_points(GridCoord::new(3, -2));
    let xs = [9000, 10500, 12000];
    let zs = [-6000, -4500, -3000];
    assert_eq!(p.len(), 9);
    for gz in 0..3 {
        for gx in 0..3 {
            assert_eq!(p[gz * 3 + gx], WorldOffset { x: xs[gx], y: 0, z: zs[gz] });
        }
    }
}

#[test]
fn neighbouring_chunks_sample_the_same_edge() {
    let w = world(4, 2000);
    let here = w.chunk_sample_points(GridCoord::new(-1, 7));
    let east = w.chunk_sample_points(GridCoord::new(0, 7));
    let south = w.chunk_sample_points(GridCoord::new(-1, 8));
    for g in 0..5 {
        assert_eq!(here[g * 5 + 4], east[g * 5]);
        assert_eq!(here[4 * 5 + g], south[g]);
    }
    let far = w.chunk_sample_points(GridCoord::new(i32::MAX, i32::MIN));
    assert_eq!(
        far[24],
        WorldOffset { x: i32::MAX as i64 * 8000 + 8000, y: 0, z: i32::MIN as i64 * 8000 + 8000 }
    );
}
