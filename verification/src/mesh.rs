//! Chunk mesh geometry, built from a grid of sampled heights.
//!
//! A chunk of `n` by `n` tiles has `(n + 1)` by `(n + 1)` grid vertices; the
//! caller samples the heightfield once at each of them, row by row along `z`,
//! and hands the grid in. Every tile becomes four mesh vertices and two
//! triangles.

use vstd::prelude::*;
use crate::coords::GridCoord;
use crate::terrain::TerrainConfig;
use crate::terrain::TerrainWorld;
use crate::tiles::picks;
use crate::tiles::TileTypes;
use crate::units::floor_div_spec;
use crate::units::floor_div_wide;
use crate::units::lemma_cell_number;
use crate::units::lemma_floor_div_bounds;
use crate::units::WorldOffset;
use crate::units::WorldPos;

verus! {

/// Direction of a surface normal, not normalised. Its `y` is positive.
#[derive(Clone, Copy, Debug, PartialEq, Eq, Structural)]
pub struct NormalDir {
    pub x: i64,
    pub y: i64,
    pub z: i64,
}

/// Triangle mesh of one chunk, in chunk-local coordinates. The three
/// per-vertex lists run in step; `tile_indices` names each vertex's column in
/// a one-row colour atlas.
#[derive(Debug)]
pub struct ChunkMeshData {
    pub positions: Vec<WorldPos>,
    pub normals: Vec<NormalDir>,
    pub tile_indices: Vec<u32>,
    pub indices: Vec<u32>,
}

/// Height sampled at grid vertex `(gx, gz)`.
pub open spec fn height_at(heights: Seq<i32>, n: int, gx: int, gz: int) -> int {
    heights[gz * (n + 1) + gx] as int
}

/// The neighbour below `g` on an axis, held at the chunk's edge.
pub open spec fn lower(g: int) -> int {
    if g > 0 {
        g - 1
    } else {
        0
    }
}

/// The neighbour above `g` on an axis, held at the chunk's edge.
pub open spec fn upper(g: int, n: int) -> int {
    if g < n {
        g + 1
    } else {
        n
    }
}

/// Grid steps between the two neighbours of `g`, at least one.
pub open spec fn span(g: int, n: int) -> int {
    if upper(g, n) - lower(g) >= 1 {
        upper(g, n) - lower(g)
    } else {
        1
    }
}

/// Central-difference normal at grid vertex `(gx, gz)`: the direction
/// `(-dh/dx, 1, -dh/dz)`, scaled by the positive factor
/// `span(gx) * span(gz) * tile_size` that clears both denominators.
pub open spec fn normal_at(heights: Seq<i32>, n: int, tile_size: int, gx: int, gz: int) -> (int, int, int) {
    let dh_x = height_at(heights, n, upper(gx, n), gz) - height_at(heights, n, lower(gx), gz);
    let dh_z = height_at(heights, n, gx, upper(gz, n)) - height_at(heights, n, gx, lower(gz));
    (-dh_x * span(gz, n), span(gx, n) * span(gz, n) * tile_size, -dh_z * span(gx, n))
}

/// Mesh vertex `v` is grid vertex `(gx, gz)`.
pub open spec fn vertex_matches(
    positions: Seq<WorldPos>,
    normals: Seq<NormalDir>,
    v: int,
    heights: Seq<i32>,
    n: int,
    tile_size: int,
    gx: int,
    gz: int,
) -> bool {
    &&& positions[v].x == gx * tile_size
    &&& positions[v].y == height_at(heights, n, gx, gz)
    &&& positions[v].z == gz * tile_size
    &&& (normals[v].x as int, normals[v].y as int, normals[v].z as int) == normal_at(
        heights,
        n,
        tile_size,
        gx,
        gz,
    )
}

/// Sum of the four corner heights of tile `(x, z)`; four times its average.
pub open spec fn corner_sum(heights: Seq<i32>, n: int, x: int, z: int) -> int {
    height_at(heights, n, x, z) + height_at(heights, n, x + 1, z) + height_at(heights, n, x, z + 1)
        + height_at(heights, n, x + 1, z + 1)
}

/// Tile `(x, z)` is in the mesh: its four vertices from slot `4 * (z * n + x)`
/// on, corner `(x, z)` first, then `(x + 1, z)`, `(x, z + 1)`, `(x + 1, z + 1)`;
/// each carrying the tile kind picked by the average corner height; and its
/// two triangles from index slot `6 * (z * n + x)` on.
pub open spec fn tile_matches(
    positions: Seq<WorldPos>,
    normals: Seq<NormalDir>,
    tile_indices: Seq<u32>,
    indices: Seq<u32>,
    heights: Seq<i32>,
    n: int,
    tile_size: int,
    thresholds: Seq<int>,
    x: int,
    z: int,
) -> bool {
    let b = 4 * (z * n + x);
    let i = 6 * (z * n + x);
    let avg = floor_div_spec(corner_sum(heights, n, x, z), 4);
    &&& vertex_matches(positions, normals, b, heights, n, tile_size, x, z)
    &&& vertex_matches(positions, normals, b + 1, heights, n, tile_size, x + 1, z)
    &&& vertex_matches(positions, normals, b + 2, heights, n, tile_size, x, z + 1)
    &&& vertex_matches(positions, normals, b + 3, heights, n, tile_size, x + 1, z + 1)
    &&& picks(thresholds, avg, tile_indices[b] as int)
    &&& tile_indices[b + 1] == tile_indices[b]
    &&& tile_indices[b + 2] == tile_indices[b]
    &&& tile_indices[b + 3] == tile_indices[b]
    &&& indices[i] == b
    &&& indices[i + 1] == b + 2
    &&& indices[i + 2] == b + 1
    &&& indices[i + 3] == b + 1
    &&& indices[i + 4] == b + 2
    &&& indices[i + 5] == b + 3
}

/// The upward part of the right-hand normal of triangle `(a, b, c)`.
pub open spec fn up_component(a: WorldPos, b: WorldPos, c: WorldPos) -> int {
    (b.z - a.z) * (c.x - a.x) - (b.x - a.x) * (c.z - a.z)
}

impl ChunkMeshData {
    /// The mesh is the one that the height grid and the tile table determine.
    pub open spec fn matches(
        &self,
        heights: Seq<i32>,
        n: int,
        tile_size: int,
        thresholds: Seq<int>,
    ) -> bool {
        &&& self.positions@.len() == 4 * (n * n)
        &&& self.normals@.len() == 4 * (n * n)
        &&& self.tile_indices@.len() == 4 * (n * n)
        &&& self.indices@.len() == 6 * (n * n)
        &&& forall|x: int, z: int|
            0 <= x < n && 0 <= z < n ==> #[trigger] tile_matches(
                self.positions@,
                self.normals@,
                self.tile_indices@,
                self.indices@,
                heights,
                n,
                tile_size,
                thresholds,
                x,
                z,
            )
    }
}

/// A grid vertex has a slot in the height grid.
pub proof fn lemma_grid_slot(n: int, gx: int, gz: int)
    requires
        0 <= gx <= n,
        0 <= gz <= n,
    ensures
        0 <= gz * (n + 1),
        0 <= gz * (n + 1) + gx < (n + 1) * (n + 1),
        n <= 32767 ==> (n + 1) * (n + 1) <= 0x4000_0000,
{
    assert(n <= 32767 ==> (n + 1) * (n + 1) <= 0x4000_0000) by (nonlinear_arith)
        requires
            0 <= n,
    ;
    assert(gz * (n + 1) <= n * (n + 1)) by (nonlinear_arith)
        requires
            0 <= gz <= n,
            0 <= n,
    ;
    assert(gz * (n + 1) >= 0) by (nonlinear_arith)
        requires
            0 <= gz,
            0 <= n,
    ;
    assert((n + 1) * (n + 1) == n * (n + 1) + n + 1) by (nonlinear_arith);
}

/// Tiles are numbered row by row: a tile's number tells its column and row.
pub proof fn lemma_tile_number(n: int, x1: int, z1: int, x2: int, z2: int)
    requires
        0 <= x1 < n,
        0 <= x2 < n,
        0 <= z1,
        0 <= z2,
    ensures
        z1 * n + x1 == z2 * n + x2 ==> x1 == x2 && z1 == z2,
        z1 < z2 ==> z1 * n + x1 < z2 * n + x2,
        0 <= z1 * n + x1,
        z1 < n ==> z1 * n + x1 < n * n,
{
    assert(z1 < z2 ==> z1 * n + n <= z2 * n) by (nonlinear_arith)
        requires
            0 <= n,
    ;
    assert(z2 < z1 ==> z2 * n + n <= z1 * n) by (nonlinear_arith)
        requires
            0 <= n,
    ;
    assert(0 <= z1 * n) by (nonlinear_arith)
        requires
            0 <= z1,
            0 <= n,
    ;
    assert(z1 < n ==> z1 * n + n <= n * n) by (nonlinear_arith)
        requires
            0 <= n,
    ;
}

/// Both triangles of every tile wind so that their right-hand normal points
/// up: the surface faces a viewer above it.
pub proof fn lemma_winding_faces_up(
    mesh: ChunkMeshData,
    heights: Seq<i32>,
    n: int,
    tile_size: int,
    thresholds: Seq<int>,
    x: int,
    z: int,
)
    requires
        mesh.matches(heights, n, tile_size, thresholds),
        tile_size >= 1,
        0 <= x < n,
        0 <= z < n,
    ensures
        ({
            let p = mesh.positions@;
            let i = mesh.indices@;
            let t = 6 * (z * n + x);
            &&& up_component(p[i[t] as int], p[i[t + 1] as int], p[i[t + 2] as int]) > 0
            &&& up_component(p[i[t + 3] as int], p[i[t + 4] as int], p[i[t + 5] as int]) > 0
        }),
{
    assert(tile_matches(
        mesh.positions@,
        mesh.normals@,
        mesh.tile_indices@,
        mesh.indices@,
        heights,
        n,
        tile_size,
        thresholds,
        x,
        z,
    ));
    lemma_tile_number(n, x, z, x, z);
    let p = mesh.positions@;
    let b = 4 * (z * n + x);
    let (c00, c10, c01, c11) = (p[b], p[b + 1], p[b + 2], p[b + 3]);
    assert((x + 1) * tile_size - x * tile_size == tile_size) by (nonlinear_arith);
    assert((z + 1) * tile_size - z * tile_size == tile_size) by (nonlinear_arith);
    assert(tile_size * tile_size > 0) by (nonlinear_arith)
        requires
            tile_size >= 1,
    ;
    assert(up_component(c00, c01, c10) == tile_size * tile_size) by (nonlinear_arith)
        requires
            c01.z - c00.z == tile_size,
            c10.x - c00.x == tile_size,
            c01.x - c00.x == 0,
            c10.z - c00.z == 0,
    ;
    assert(up_component(c10, c01, c11) == tile_size * tile_size) by (nonlinear_arith)
        requires
            c01.z - c10.z == tile_size,
            c11.x - c10.x == 0,
            c01.x - c10.x == -tile_size,
            c11.z - c10.z == tile_size,
    ;
}

/// The central-difference normal at one grid vertex.
fn vertex_normal(heights: &Vec<i32>, n: usize, tile_size: i32, gx: usize, gz: usize) -> (nrm:
    NormalDir)
    requires
        1 <= n <= 32767,
        1 <= tile_size,
        gx <= n,
        gz <= n,
        heights@.len() == (n + 1) * (n + 1),
    ensures
        (nrm.x as int, nrm.y as int, nrm.z as int) == normal_at(
            heights@,
            n as int,
            tile_size as int,
            gx as int,
            gz as int,
        ),
        nrm.y > 0,
{
    let gx_l: usize = if gx > 0 {
        gx - 1
    } else {
        0
    };
    let gx_r: usize = if gx < n {
        gx + 1
    } else {
        n
    };
    let gz_d: usize = if gz > 0 {
        gz - 1
    } else {
        0
    };
    let gz_u: usize = if gz < n {
        gz + 1
    } else {
        n
    };
    proof {
        lemma_grid_slot(n as int, gx_l as int, gz as int);
        lemma_grid_slot(n as int, gx_r as int, gz as int);
        lemma_grid_slot(n as int, gx as int, gz_d as int);
        lemma_grid_slot(n as int, gx as int, gz_u as int);
    }
    let h_l: i64 = heights[gz * (n + 1) + gx_l] as i64;
    let h_r: i64 = heights[gz * (n + 1) + gx_r] as i64;
    let h_d: i64 = heights[gz_d * (n + 1) + gx] as i64;
    let h_u: i64 = heights[gz_u * (n + 1) + gx] as i64;
    let kx: i64 = if gx_r - gx_l >= 1 {
        (gx_r - gx_l) as i64
    } else {
        1
    };
    let kz: i64 = if gz_u - gz_d >= 1 {
        (gz_u - gz_d) as i64
    } else {
        1
    };
    assert(1 <= kx <= 2 && 1 <= kz <= 2);
    let dh_x: i64 = h_r - h_l;
    let dh_z: i64 = h_u - h_d;
    assert(-0x2_0000_0000 <= -dh_x * kz <= 0x2_0000_0000) by (nonlinear_arith)
        requires
            -0x1_0000_0000 <= dh_x <= 0x1_0000_0000,
            1 <= kz <= 2,
    ;
    assert(-0x2_0000_0000 <= -dh_z * kx <= 0x2_0000_0000) by (nonlinear_arith)
        requires
            -0x1_0000_0000 <= dh_z <= 0x1_0000_0000,
            1 <= kx <= 2,
    ;
    assert(1 <= kx * kz <= 4) by (nonlinear_arith)
        requires
            1 <= kx <= 2,
            1 <= kz <= 2,
    ;
    assert(0 < kx * kz * tile_size <= 0x2_0000_0000) by (nonlinear_arith)
        requires
            1 <= kx * kz <= 4,
            1 <= tile_size <= 0x7fff_ffff,
    ;
    NormalDir { x: -dh_x * kz, y: kx * kz * (tile_size as i64), z: -dh_z * kx }
}

/// Where grid line `g` of the chunk in column or row `c` lies along its axis
/// of the world: the chunk's origin and `g` tiles on.
pub open spec fn grid_line(config: TerrainConfig, c: int, g: int) -> int {
    c * config.chunk_world_size_spec() + g * config.tile_size
}

/// Entry `gz * (n + 1) + gx` of `points` is where grid vertex `(gx, gz)` of
/// the chunk lies on the ground plane of the world.
pub open spec fn point_listed(
    points: Seq<WorldOffset>,
    config: TerrainConfig,
    coord: GridCoord,
    gx: int,
    gz: int,
) -> bool {
    let p = points[gz * (config.chunk_size + 1) + gx];
    &&& p.x == grid_line(config, coord.x as int, gx)
    &&& p.y == 0
    &&& p.z == grid_line(config, coord.z as int, gz)
}

/// The last grid line of a chunk is the first of the next: heights are
/// sampled by world coordinate, so that neighbouring chunks sample the very
/// same points along the edge they share, and the surface has no seam.
pub proof fn lemma_chunks_share_edges(config: TerrainConfig, c: int)
    ensures
        grid_line(config, c, config.chunk_size as int) == grid_line(config, c + 1, 0),
{
    let n = config.chunk_size as int;
    let t = config.tile_size as int;
    assert(c * (n * t) + n * t == (c + 1) * (n * t) + 0 * t) by (nonlinear_arith);
}

impl TerrainWorld {
    /// The points at which the heights of a chunk are to be sampled: the
    /// grid vertices of the chunk in world coordinates, row by row along `z`,
    /// as `build_chunk_mesh_data` takes their heights.
    pub fn chunk_sample_points(&self, coord: GridCoord) -> (points: Vec<WorldOffset>)
        requires
            self.config().valid(),
        ensures
            points@.len() == (self.config().chunk_size + 1) * (self.config().chunk_size + 1),
            forall|gx: int, gz: int|
                0 <= gx <= self.config().chunk_size && 0 <= gz <= self.config().chunk_size
                    ==> #[trigger] point_listed(points@, self.config(), coord, gx, gz),
    {
        let config: TerrainConfig = self.config();
        let n: usize = config.chunk_size as usize;
        let ts: i64 = config.tile_size as i64;
        let size: i64 = config.chunk_world_size() as i64;
        assert(-0x8000_0000 * 0x8000_0000 <= coord.x * size <= 0x8000_0000 * 0x8000_0000
            && -0x8000_0000 * 0x8000_0000 <= coord.z * size <= 0x8000_0000 * 0x8000_0000)
            by (nonlinear_arith)
            requires
                -0x8000_0000 <= coord.x <= 0x8000_0000,
                -0x8000_0000 <= coord.z <= 0x8000_0000,
                1 <= size <= 0x8000_0000,
        ;
        let origin_x: i64 = (coord.x as i64) * size;
        let origin_z: i64 = (coord.z as i64) * size;
        let mut points: Vec<WorldOffset> = Vec::new();
        let mut gz: usize = 0;
        assert(0 * (n + 1) == 0);
        while gz <= n
            invariant
                0 <= gz <= n + 1,
                config == self.config(),
                config.valid(),
                n == config.chunk_size,
                ts == config.tile_size,
                size == config.chunk_world_size_spec(),
                origin_x == coord.x * size,
                origin_z == coord.z * size,
                -0x8000_0000 * 0x8000_0000 <= origin_x <= 0x8000_0000 * 0x8000_0000,
                -0x8000_0000 * 0x8000_0000 <= origin_z <= 0x8000_0000 * 0x8000_0000,
                points@.len() == gz * (n + 1),
                forall|x: int, z: int|
                    0 <= x <= n && 0 <= z < gz ==> #[trigger] point_listed(
                        points@,
                        config,
                        coord,
                        x,
                        z,
                    ),
            decreases n + 1 - gz,
        {
            let mut gx: usize = 0;
            while gx <= n
                invariant
                    0 <= gx <= n + 1,
                    0 <= gz <= n,
                    config.valid(),
                    n == config.chunk_size,
                    ts == config.tile_size,
                    size == config.chunk_world_size_spec(),
                    origin_x == coord.x * size,
                    origin_z == coord.z * size,
                    -0x8000_0000 * 0x8000_0000 <= origin_x <= 0x8000_0000 * 0x8000_0000,
                    -0x8000_0000 * 0x8000_0000 <= origin_z <= 0x8000_0000 * 0x8000_0000,
                    points@.len() == gz * (n + 1) + gx,
                    forall|x: int, z: int|
                        0 <= x <= n && 0 <= z <= n && (z < gz || (z == gz && x < gx))
                            ==> #[trigger] point_listed(points@, config, coord, x, z),
                decreases n + 1 - gx,
            {
                let ghost before = points@;
                proof {
                    assert(0 <= gx * ts <= n * ts && 0 <= gz * ts <= n * ts) by (nonlinear_arith)
                        requires
                            0 <= gx <= n,
                            0 <= gz <= n,
                            1 <= ts,
                    ;
                }
                points.push(
                    WorldOffset {
                        x: origin_x + (gx as i64) * ts,
                        y: 0,
                        z: origin_z + (gz as i64) * ts,
                    },
                );
                proof {
                    assert forall|x: int, z: int|
                        0 <= x <= n && 0 <= z <= n && (z < gz || (z == gz && x < gx + 1))
                            implies #[trigger] point_listed(points@, config, coord, x, z) by {
                        lemma_cell_number(n + 1, n + 1, x, z);
                        lemma_cell_number(n + 1, n + 1, gx as int, gz as int);
                        if z < gz {
                            assert(z * (n + 1) + (n + 1) <= gz * (n + 1)) by (nonlinear_arith)
                                requires
                                    z + 1 <= gz,
                                    0 <= n,
                            ;
                        }
                        if z < gz || x < gx {
                            assert(point_listed(before, config, coord, x, z));
                        }
                    }
                }
                gx = gx + 1;
            }
            proof {
                assert(gz * (n + 1) + (n + 1) == (gz + 1) * (n + 1)) by (nonlinear_arith);
            }
            gz = gz + 1;
        }
        points
    }

    /// Builds the mesh of one chunk from the heights sampled at its grid
    /// vertices: `heights[gz * (n + 1) + gx]` is the height at grid vertex
    /// `(gx, gz)`, where `n` is the chunk size.
    pub fn build_chunk_mesh_data(&self, heights: &Vec<i32>, tiles: &TileTypes) -> (mesh:
        ChunkMeshData)
        requires
            self.config().valid(),
            heights@.len() == (self.config().chunk_size + 1) * (self.config().chunk_size + 1),
            tiles.valid(),
            tiles.tiles@.len() <= u32::MAX,
        ensures
            mesh.matches(
                heights@,
                self.config().chunk_size as int,
                self.config().tile_size as int,
                tiles.thresholds(),
            ),
    {
        let n: usize = self.config().chunk_size as usize;
        let ts: i32 = self.config().tile_size;
        let mut positions: Vec<WorldPos> = Vec::new();
        let mut normals: Vec<NormalDir> = Vec::new();
        let mut tile_indices: Vec<u32> = Vec::new();
        let mut indices: Vec<u32> = Vec::new();

        assert(n * n <= 32767 * 32767) by (nonlinear_arith)
            requires
                0 <= n <= 32767,
        ;
        let mut z: usize = 0;
        while z < n
            invariant
                0 <= z <= n,
                1 <= n <= 32767,
                n == self.config().chunk_size,
                n * n <= 32767 * 32767,
                1 <= ts,
                ts == self.config().tile_size,
                n * ts <= i32::MAX,
                heights@.len() == (n + 1) * (n + 1),
                tiles.valid(),
                tiles.tiles@.len() <= u32::MAX,
                positions@.len() == 4 * (z * n),
                normals@.len() == 4 * (z * n),
                tile_indices@.len() == 4 * (z * n),
                indices@.len() == 6 * (z * n),
                forall|x1: int, z1: int|
                    0 <= x1 < n && 0 <= z1 < n && z1 * n + x1 < z * n ==> #[trigger] tile_matches(
                        positions@,
                        normals@,
                        tile_indices@,
                        indices@,
                        heights@,
                        n as int,
                        ts as int,
                        tiles.thresholds(),
                        x1,
                        z1,
                    ),
            decreases n - z,
        {
            let mut x: usize = 0;
            while x < n
                invariant
                    0 <= x <= n,
                    0 <= z < n,
                    1 <= n <= 32767,
                        n * n <= 32767 * 32767,
                    1 <= ts,
                    n * ts <= i32::MAX,
                    heights@.len() == (n + 1) * (n + 1),
                    tiles.valid(),
                    tiles.tiles@.len() <= u32::MAX,
                    positions@.len() == 4 * (z * n + x),
                    normals@.len() == 4 * (z * n + x),
                    tile_indices@.len() == 4 * (z * n + x),
                    indices@.len() == 6 * (z * n + x),
                    forall|x1: int, z1: int|
                        0 <= x1 < n && 0 <= z1 < n && z1 * n + x1 < z * n + x
                            ==> #[trigger] tile_matches(
                            positions@,
                            normals@,
                            tile_indices@,
                            indices@,
                            heights@,
                            n as int,
                            ts as int,
                            tiles.thresholds(),
                            x1,
                            z1,
                        ),
                decreases n - x,
            {
                proof {
                    lemma_grid_slot(n as int, x as int, z as int);
                    lemma_grid_slot(n as int, x + 1, z as int);
                    lemma_grid_slot(n as int, x as int, z + 1);
                    lemma_grid_slot(n as int, x + 1, z + 1);
                    lemma_tile_number(n as int, x as int, z as int, x as int, z as int);
                    assert((x + 1) * ts <= n * ts && (z + 1) * ts <= n * ts && 0 <= x * ts && 0
                        <= z * ts) by (nonlinear_arith)
                        requires
                            0 <= x < n,
                            0 <= z < n,
                            1 <= ts,
                    ;
                    assert((x + 1) * ts == x * ts + ts && (z + 1) * ts == z * ts + ts)
                        by (nonlinear_arith);
                }
                let x0: i32 = (x as i32) * ts;
                let z0: i32 = (z as i32) * ts;
                let x1: i32 = x0 + ts;
                let z1: i32 = z0 + ts;

                let h00: i32 = heights[z * (n + 1) + x];
                let h10: i32 = heights[z * (n + 1) + (x + 1)];
                let h01: i32 = heights[(z + 1) * (n + 1) + x];
                let h11: i32 = heights[(z + 1) * (n + 1) + (x + 1)];

                let n00: NormalDir = vertex_normal(heights, n, ts, x, z);
                let n10: NormalDir = vertex_normal(heights, n, ts, x + 1, z);
                let n01: NormalDir = vertex_normal(heights, n, ts, x, z + 1);
                let n11: NormalDir = vertex_normal(heights, n, ts, x + 1, z + 1);

                let sum: i64 = h00 as i64 + h10 as i64 + h01 as i64 + h11 as i64;
                let avg: i64 = floor_div_wide(sum, 4);
                proof {
                    lemma_floor_div_bounds(sum as int, 4);
                }
                let tile_index: u32 = tiles.pick_tile_index(avg as i32);

                let ghost count = z * n + x;
                let ghost old_positions = positions@;
                let ghost old_normals = normals@;
                let ghost old_tiles = tile_indices@;
                let ghost old_indices = indices@;

                let base: u32 = positions.len() as u32;
                positions.push(WorldPos { x: x0, y: h00, z: z0 });
                positions.push(WorldPos { x: x1, y: h10, z: z0 });
                positions.push(WorldPos { x: x0, y: h01, z: z1 });
                positions.push(WorldPos { x: x1, y: h11, z: z1 });
                normals.push(n00);
                normals.push(n10);
                normals.push(n01);
                normals.push(n11);
                tile_indices.push(tile_index);
                tile_indices.push(tile_index);
                tile_indices.push(tile_index);
                tile_indices.push(tile_index);

                // Wound so that the top of the surface faces up.
                indices.push(base);
                indices.push(base + 2);
                indices.push(base + 1);
                indices.push(base + 1);
                indices.push(base + 2);
                indices.push(base + 3);

                proof {
                    assert forall|xa: int, za: int|
                        0 <= xa < n && 0 <= za < n && za * n + xa < count + 1
                            implies #[trigger] tile_matches(
                            positions@,
                            normals@,
                            tile_indices@,
                            indices@,
                            heights@,
                            n as int,
                            ts as int,
                            tiles.thresholds(),
                            xa,
                            za,
                        ) by {
                        lemma_tile_number(n as int, xa, za, x as int, z as int);
                        if za * n + xa < count {
                            assert(tile_matches(
                                old_positions,
                                old_normals,
                                old_tiles,
                                old_indices,
                                heights@,
                                n as int,
                                ts as int,
                                tiles.thresholds(),
                                xa,
                                za,
                            ));
                        } else {
                            assert(xa == x && za == z);
                        }
                    }
                }
                x = x + 1;
            }
            proof {
                assert(z * n + n == (z + 1) * n) by (nonlinear_arith);
            }
            z = z + 1;
        }
        proof {
            assert forall|xa: int, za: int| 0 <= xa < n && 0 <= za < n implies #[trigger] tile_matches(
                positions@,
                normals@,
                tile_indices@,
                indices@,
                heights@,
                n as int,
                ts as int,
                tiles.thresholds(),
                xa,
                za,
            ) by {
                lemma_tile_number(n as int, xa, za, xa, za);
            }
        }
        ChunkMeshData { positions, normals, tile_indices, indices }
    }
}

} // verus!
