//! Fixed-size terrain chunks: keys, height grids and the index pattern of a
//! chunk's triangle list.

use vstd::prelude::*;
use std::collections::HashMap;
use crate::coords::clip_hi;
use crate::coords::clip_lo;
use crate::seqs::lemma_filter_members;
use crate::seqs::lemma_filter_take_step;
use crate::seqs::lemma_push_fresh;
use crate::seqs::lemma_remove_distinct;
use crate::units::floor_div;
use crate::units::floor_div_spec;
use crate::units::UNITS_PER_WORLD_UNIT;

verus! {

broadcast use vstd::std_specs::hash::group_hash_axioms;

/// Tiles along one edge of a chunk; a tile is one world unit wide.
pub const CHUNK_SIZE: usize = 20;

/// Names a chunk by its column and row.
#[derive(Clone, Copy, Debug, PartialEq, Eq, Hash, Structural)]
pub struct ChunkKey {
    pub x: i32,
    pub z: i32,
}

impl ChunkKey {
    pub fn new(x: i32, z: i32) -> (key: ChunkKey)
        ensures
            key == (ChunkKey { x, z }),
    {
        ChunkKey { x, z }
    }

    /// The key as one integer, for use as a hash key. Distinct keys have
    /// distinct integers (`lemma_key_injective`).
    pub open spec fn key(self) -> u64 {
        ((self.x - i32::MIN) * 0x1_0000_0000 + (self.z - i32::MIN)) as u64
    }

    pub fn to_key(&self) -> (k: u64)
        ensures
            k == self.key(),
    {
        let hi: u64 = (self.x as i64 - i32::MIN as i64) as u64;
        let lo: u64 = (self.z as i64 - i32::MIN as i64) as u64;
        hi * 0x1_0000_0000 + lo
    }

    pub proof fn lemma_key_injective(a: ChunkKey, b: ChunkKey)
        requires
            a.key() == b.key(),
        ensures
            a == b,
    {
    }

    /// The chunk that holds a point of the ground plane.
    pub fn from_world_position(pos_x: i32, pos_z: i32) -> (key: ChunkKey)
        ensures
            key.x == floor_div_spec(pos_x as int, CHUNK_SIZE * UNITS_PER_WORLD_UNIT),
            key.z == floor_div_spec(pos_z as int, CHUNK_SIZE * UNITS_PER_WORLD_UNIT),
    {
        let edge: i32 = 20 * UNITS_PER_WORLD_UNIT;
        ChunkKey { x: floor_div(pos_x, edge), z: floor_div(pos_z, edge) }
    }
}

/// Makes the heights of a chunk's grid vertices.
pub trait TerrainGenerator {
    /// The heights that the generator makes for a chunk, row by row.
    spec fn heights(&self, chunk_x: i32, chunk_z: i32) -> Seq<i32>;

    fn generate_chunk(&self, chunk_x: i32, chunk_z: i32) -> (heights: Vec<i32>)
        ensures
            heights@ == self.heights(chunk_x, chunk_z),
    ;
}

/// A generator of level ground at height zero.
pub struct FlatTerrainGenerator {
    chunk_size: usize,
}

impl FlatTerrainGenerator {
    #[verifier::type_invariant]
    spec fn fits(self) -> bool {
        (self.chunk_size + 1) * (self.chunk_size + 1) <= usize::MAX
    }

    pub closed spec fn chunk_size(&self) -> usize {
        self.chunk_size
    }

    /// A generator for chunks of `chunk_size` tiles a side, whose grid of
    /// `(chunk_size + 1)^2` vertices must be countable.
    pub fn new(chunk_size: usize) -> (g: FlatTerrainGenerator)
        requires
            (chunk_size + 1) * (chunk_size + 1) <= usize::MAX,
        ensures
            g.chunk_size() == chunk_size,
    {
        FlatTerrainGenerator { chunk_size }
    }
}

impl TerrainGenerator for FlatTerrainGenerator {
    /// Zero at each of the `(chunk_size + 1)^2` grid vertices.
    open spec fn heights(&self, chunk_x: i32, chunk_z: i32) -> Seq<i32> {
        Seq::new(((self.chunk_size() + 1) * (self.chunk_size() + 1)) as nat, |i: int| 0i32)
    }

    fn generate_chunk(&self, chunk_x: i32, chunk_z: i32) -> (heights: Vec<i32>) {
        proof {
            use_type_invariant(self);
            let n = self.chunk_size as int;
            assert(n + 1 <= (n + 1) * (n + 1)) by (nonlinear_arith)
                requires
                    n >= 0,
            ;
        }
        let stride: usize = self.chunk_size + 1;
        let vertex_count: usize = stride * stride;
        let mut heights: Vec<i32> = Vec::new();
        let mut i: usize = 0;
        while i < vertex_count
            invariant
                0 <= i <= vertex_count,
                heights@.len() == i,
                forall|j: int| 0 <= j < i ==> heights@[j] == 0,
            decreases vertex_count - i,
        {
            heights.push(0);
            i = i + 1;
        }
        assert(heights@ =~= self.heights(chunk_x, chunk_z));
        heights
    }
}

/// The heights of one chunk.
pub struct Chunk {
    pub heights: Vec<i32>,
    /// Set until the host has taken the heights over.
    pub dirty: bool,
}

/// Entry `k` of the six indices of a tile whose corners have the vertex
/// numbers `tl`, `tl + 1`, `bl` and `bl + 1`: the triangle top-left,
/// bottom-left, top-right, then top-right, bottom-left, bottom-right.
pub open spec fn tile_index(tl: int, bl: int, k: int) -> int {
    if k == 0 {
        tl
    } else if k == 1 {
        bl
    } else if k == 2 {
        tl + 1
    } else if k == 3 {
        tl + 1
    } else if k == 4 {
        bl
    } else {
        bl + 1
    }
}

/// The six indices of tile `(ix, iz)` stand in the list from slot
/// `6 * (iz * CHUNK_SIZE + ix)` on, and are `tile_index` of its corners.
pub open spec fn tile_listed(indices: Seq<u16>, ix: int, iz: int) -> bool {
    forall|k: int|
        0 <= k < 6 ==> #[trigger] indices[6 * (iz * CHUNK_SIZE + ix) + k] == tile_index(
            iz * (CHUNK_SIZE + 1) + ix,
            (iz + 1) * (CHUNK_SIZE + 1) + ix,
            k,
        )
}

/// Where tile `(x, z)` stands in the list and in the grid, in plain numbers.
proof fn lemma_chunk_slots(x: int, z: int)
    ensures
        6 * (z * CHUNK_SIZE + x) == 120 * z + 6 * x,
        z * (CHUNK_SIZE + 1) + x == 21 * z + x,
        (z + 1) * (CHUNK_SIZE + 1) + x == 21 * z + 21 + x,
{
    assert(z * CHUNK_SIZE == 20 * z) by (nonlinear_arith)
        requires
            CHUNK_SIZE == 20,
    ;
    assert(z * (CHUNK_SIZE + 1) == 21 * z) by (nonlinear_arith)
        requires
            CHUNK_SIZE == 20,
    ;
    assert((z + 1) * (CHUNK_SIZE + 1) == 21 * z + 21) by (nonlinear_arith)
        requires
            CHUNK_SIZE == 20,
    ;
}

impl Chunk {
    /// The chunk is as the generator made it for `key`: it holds the heights
    /// that the generator makes there, and is dirty.
    pub open spec fn is_fresh<G: TerrainGenerator>(&self, generator: &G, key: ChunkKey) -> bool {
        self.dirty && self.heights@ == generator.heights(key.x, key.z)
    }

    /// A chunk with the heights that the generator makes for `key`; dirty.
    pub fn new<G: TerrainGenerator>(terrain_generator: &G, key: ChunkKey) -> (chunk: Chunk)
        ensures
            chunk.is_fresh(terrain_generator, key),
    {
        Chunk { heights: terrain_generator.generate_chunk(key.x, key.z), dirty: true }
    }

    /// Column and row of a grid vertex, from its number.
    pub fn get_grid_position(vertex_index: usize) -> (at: (usize, usize))
        ensures
            at.0 == vertex_index as int % (CHUNK_SIZE + 1),
            at.1 == vertex_index as int / (CHUNK_SIZE + 1),
            at.1 * (CHUNK_SIZE + 1) + at.0 == vertex_index,
    {
        (vertex_index % (CHUNK_SIZE + 1), vertex_index / (CHUNK_SIZE + 1))
    }

    /// Grid vertices of a chunk.
    pub fn vertex_count() -> (n: usize)
        ensures
            n == (CHUNK_SIZE + 1) * (CHUNK_SIZE + 1),
    {
        (CHUNK_SIZE + 1) * (CHUNK_SIZE + 1)
    }

    /// Indices of a chunk's triangle list: two triangles a tile.
    pub fn index_count() -> (n: usize)
        ensures
            n == CHUNK_SIZE * CHUNK_SIZE * 6,
    {
        CHUNK_SIZE * CHUNK_SIZE * 6
    }

    /// The triangle list of a chunk, tile by tile along rows: every tile is
    /// in it (`tile_listed`).
    pub fn generate_indices() -> (indices: Vec<u16>)
        ensures
            indices@.len() == CHUNK_SIZE * CHUNK_SIZE * 6,
            forall|ix: int, iz: int|
                0 <= ix < CHUNK_SIZE && 0 <= iz < CHUNK_SIZE ==> #[trigger] tile_listed(
                    indices@,
                    ix,
                    iz,
                ),
    {
        let mut indices: Vec<u16> = Vec::new();
        let mut iz: usize = 0;
        while iz < 20
            invariant
                0 <= iz <= 20,
                indices@.len() == 120 * iz,
                forall|x: int, z: int|
                    0 <= x < 20 && 0 <= z < iz ==> #[trigger] tile_listed(indices@, x, z),
            decreases 20 - iz,
        {
            let mut ix: usize = 0;
            while ix < 20
                invariant
                    0 <= ix <= 20,
                    0 <= iz < 20,
                    indices@.len() == 120 * iz + 6 * ix,
                    forall|x: int, z: int|
                        0 <= x < 20 && 0 <= z < 20 && (z < iz || (z == iz && x < ix))
                            ==> #[trigger] tile_listed(indices@, x, z),
                decreases 20 - ix,
            {
                let ghost before = indices@;
                let top_left: usize = iz * 21 + ix;
                let top_right: usize = top_left + 1;
                let bottom_left: usize = (iz + 1) * 21 + ix;
                let bottom_right: usize = bottom_left + 1;
                indices.push(top_left as u16);
                indices.push(bottom_left as u16);
                indices.push(top_right as u16);
                indices.push(top_right as u16);
                indices.push(bottom_left as u16);
                indices.push(bottom_right as u16);
                proof {
                    assert forall|x: int, z: int|
                        0 <= x < 20 && 0 <= z < 20 && (z < iz || (z == iz && x < ix + 1))
                            implies #[trigger] tile_listed(indices@, x, z) by {
                        lemma_chunk_slots(x, z);
                        if z < iz || (z == iz && x < ix) {
                            assert(tile_listed(before, x, z));
                        }
                    }
                }
                ix = ix + 1;
            }
            iz = iz + 1;
        }
        indices
    }
}

/// Sum of the two axis distances of two chunks.
pub open spec fn manhattan(a: ChunkKey, b: ChunkKey) -> int {
    (if a.x >= b.x {
        a.x - b.x
    } else {
        b.x - a.x
    }) + (if a.z >= b.z {
        a.z - b.z
    } else {
        b.z - a.z
    })
}

/// The larger of the two axis distances of two chunks.
pub open spec fn key_distance(a: ChunkKey, b: ChunkKey) -> int {
    let dx = if a.x >= b.x {
        a.x - b.x
    } else {
        b.x - a.x
    };
    let dz = if a.z >= b.z {
        a.z - b.z
    } else {
        b.z - a.z
    };
    if dx >= dz {
        dx
    } else {
        dz
    }
}

/// "Lies within `reach` of `center` along both axes."
pub open spec fn is_in_view(center: ChunkKey, reach: int) -> spec_fn(ChunkKey) -> bool {
    |k: ChunkKey| key_distance(k, center) <= reach
}

/// The chunks around a camera, each generated when the camera first comes
/// near and dropped when it has gone.
pub struct World<G: TerrainGenerator> {
    /// The chunks, by key.
    chunks: HashMap<u64, Chunk>,
    /// Their keys in the order they were generated: walking a hash map has
    /// no order to go by.
    order: Vec<ChunkKey>,
    terrain_generator: G,
}

impl<G: TerrainGenerator> World<G> {
    /// The keys of the chunks held, oldest first.
    pub closed spec fn keys(&self) -> Seq<ChunkKey> {
        self.order@
    }

    /// The chunk held under `key`.
    pub closed spec fn chunk_at(&self, key: ChunkKey) -> Chunk
        recommends
            self.keys().contains(key),
    {
        self.chunks@[key.key()]
    }

    /// The generator that makes the chunks.
    pub closed spec fn generator(&self) -> G {
        self.terrain_generator
    }

    /// A chunk is stored under exactly the keys listed.
    pub closed spec fn stores_its_keys(&self) -> bool {
        forall|k: ChunkKey| self.chunks@.contains_key(k.key()) <==> #[trigger] self.order@.contains(k)
    }

    /// No key is held twice, and every key has its chunk.
    pub open spec fn wf(&self) -> bool {
        &&& self.keys().no_duplicates()
        &&& self.stores_its_keys()
    }

    /// A world without chunks.
    pub fn new(terrain_generator: G) -> (w: World<G>)
        ensures
            w.wf(),
            w.keys().len() == 0,
            w.generator() == terrain_generator,
    {
        World { chunks: HashMap::new(), order: Vec::new(), terrain_generator }
    }

    /// The chunk held under `key`, if one is.
    pub fn get(&self, key: ChunkKey) -> (r: Option<&Chunk>)
        requires
            self.wf(),
        ensures
            r is Some <==> self.keys().contains(key),
            r matches Some(chunk) ==> *chunk == self.chunk_at(key),
    {
        let k: u64 = key.to_key();
        self.chunks.get(&k)
    }

    /// Marks the chunk under `key` as taken over by the host.
    pub fn mark_clean(&mut self, key: ChunkKey)
        requires
            old(self).wf(),
        ensures
            final(self).wf(),
            final(self).keys() == old(self).keys(),
            final(self).generator() == old(self).generator(),
            forall|k: ChunkKey|
                final(self).keys().contains(k) && k != key ==> final(self).chunk_at(k) == old(self).chunk_at(k),
            old(self).keys().contains(key) ==> !final(self).chunk_at(key).dirty && final(self).chunk_at(key).heights == old(self).chunk_at(key).heights,
    {
        let k: u64 = key.to_key();
        match self.chunks.remove(&k) {
            Some(chunk) => {
                self.chunks.insert(k, Chunk { heights: chunk.heights, dirty: false });
            },
            None => {},
        }
        proof {
            assert forall|other: ChunkKey|
                self.chunks@.contains_key(other.key()) <==> #[trigger] self.order@.contains(
                    other,
                ) by {
                if other.key() == key.key() {
                    ChunkKey::lemma_key_injective(other, key);
                }
                assert(old(self).chunks@.contains_key(other.key()) <==> old(self).order@.contains(
                    other,
                ));
            }
            assert forall|other: ChunkKey|
                self.keys().contains(other) && other != key implies self.chunk_at(other) == old(self).chunk_at(other) by {
                if other.key() == key.key() {
                    ChunkKey::lemma_key_injective(other, key);
                }
            }
        }
    }

    /// The keys of the chunks held, oldest first.
    pub fn chunk_keys(&self) -> (keys: Vec<ChunkKey>)
        ensures
            keys@ == self.keys(),
    {
        let mut keys: Vec<ChunkKey> = Vec::new();
        let mut i: usize = 0;
        while i < self.order.len()
            invariant
                0 <= i <= self.order@.len(),
                keys@ == self.order@.take(i as int),
            decreases self.order@.len() - i,
        {
            keys.push(self.order[i]);
            proof {
                self.order@.lemma_take_succ_push(i as int);
            }
            i = i + 1;
        }
        proof {
            self.order@.lemma_take_len();
        }
        keys
    }

    /// What an update around `center` leaves of a world, `before` against
    /// `self` after: a chunk is held exactly if it is near, or was held and
    /// is in view; a chunk that was held before is as it was; and a chunk
    /// that was not is fresh from the generator.
    pub open spec fn updated(&self, before: World<G>, center: ChunkKey, reach: int) -> bool {
        &&& self.generator() == before.generator()
        &&& forall|k: ChunkKey| #[trigger]
            self.keys().contains(k) <==> manhattan(k, center) <= reach || (before.keys().contains(
                k,
            ) && key_distance(k, center) <= reach)
        &&& forall|k: ChunkKey|
            before.keys().contains(k) && #[trigger] self.keys().contains(k) ==> self.chunk_at(k)
                == before.chunk_at(k)
        &&& forall|k: ChunkKey|
            !before.keys().contains(k) && #[trigger] self.keys().contains(k) ==> self.chunk_at(
                k,
            ).is_fresh(&self.generator(), k)
    }

    /// Generates the chunks that have come near and drops those that are
    /// out of view: `updated` says what is held afterwards.
    ///
    /// Near is within `render_distance` of the camera's chunk by the sum of
    /// the axis distances; in view is within `render_distance` along both
    /// axes.
    pub fn update(&mut self, camera_pos_x: i32, camera_pos_z: i32, render_distance: i32)
        requires
            old(self).wf(),
        ensures
            final(self).wf(),
            final(self).updated(
                *old(self),
                ChunkKey {
                    x: floor_div_spec(camera_pos_x as int, CHUNK_SIZE * UNITS_PER_WORLD_UNIT) as i32,
                    z: floor_div_spec(camera_pos_z as int, CHUNK_SIZE * UNITS_PER_WORLD_UNIT) as i32,
                },
                render_distance as int,
            ),
    {
        let center: ChunkKey = ChunkKey::from_world_position(camera_pos_x, camera_pos_z);
        let reach: i64 = render_distance as i64;
        if reach >= 0 {
            let lo_x: i64 = if center.x as i64 - reach < i32::MIN as i64 {
                i32::MIN as i64
            } else {
                center.x as i64 - reach
            };
            let hi_x: i64 = if center.x as i64 + reach > i32::MAX as i64 {
                i32::MAX as i64
            } else {
                center.x as i64 + reach
            };
            let lo_z: i64 = if center.z as i64 - reach < i32::MIN as i64 {
                i32::MIN as i64
            } else {
                center.z as i64 - reach
            };
            let hi_z: i64 = if center.z as i64 + reach > i32::MAX as i64 {
                i32::MAX as i64
            } else {
                center.z as i64 + reach
            };
            let mut z: i64 = lo_z;
            while z <= hi_z
                invariant
                    self.wf(),
                    self.generator() == old(self).generator(),
                    reach >= 0,
                    lo_z <= z <= hi_z + 1,
                    i32::MIN <= lo_z <= hi_z <= i32::MAX,
                    i32::MIN <= lo_x <= hi_x <= i32::MAX,
                    lo_x == clip_lo(center.x as int, reach as int),
                    hi_x == clip_hi(center.x as int, reach as int),
                    lo_z == clip_lo(center.z as int, reach as int),
                    hi_z == clip_hi(center.z as int, reach as int),
                    forall|k: ChunkKey| #[trigger]
                        self.keys().contains(k) <==> old(self).keys().contains(k) || (manhattan(
                            k,
                            center,
                        ) <= reach && k.z < z),
                    forall|k: ChunkKey|
                        #[trigger] old(self).keys().contains(k) ==> self.chunk_at(k) == old(self).chunk_at(k),
                    forall|k: ChunkKey|
                        !old(self).keys().contains(k) && #[trigger] self.keys().contains(k)
                            ==> self.chunk_at(k).is_fresh(&self.generator(), k),
                decreases hi_z + 1 - z,
            {
                let mut x: i64 = lo_x;
                while x <= hi_x
                    invariant
                        self.wf(),
                        self.generator() == old(self).generator(),
                        reach >= 0,
                        lo_x <= x <= hi_x + 1,
                        lo_z <= z <= hi_z,
                        i32::MIN <= lo_z <= hi_z <= i32::MAX,
                        i32::MIN <= lo_x <= hi_x <= i32::MAX,
                        lo_x == clip_lo(center.x as int, reach as int),
                        hi_x == clip_hi(center.x as int, reach as int),
                        lo_z == clip_lo(center.z as int, reach as int),
                        hi_z == clip_hi(center.z as int, reach as int),
                        forall|k: ChunkKey| #[trigger]
                            self.keys().contains(k) <==> old(self).keys().contains(k) || (manhattan(
                                k,
                                center,
                            ) <= reach && (k.z < z || (k.z == z && k.x < x))),
                        forall|k: ChunkKey|
                            #[trigger] old(self).keys().contains(k) ==> self.chunk_at(k) == old(self).chunk_at(k),
                        forall|k: ChunkKey|
                            !old(self).keys().contains(k) && #[trigger] self.keys().contains(k)
                                ==> self.chunk_at(k).is_fresh(&self.generator(), k),
                    decreases hi_x + 1 - x,
                {
                    let dx: i64 = if x >= center.x as i64 {
                        x - center.x as i64
                    } else {
                        center.x as i64 - x
                    };
                    let dz: i64 = if z >= center.z as i64 {
                        z - center.z as i64
                    } else {
                        center.z as i64 - z
                    };
                    let key: ChunkKey = ChunkKey { x: x as i32, z: z as i32 };
                    let k: u64 = key.to_key();
                    if dx + dz <= reach && !self.chunks.contains_key(&k) {
                        let ghost before = *self;
                        assert(!before.keys().contains(key));
                        let chunk: Chunk = Chunk::new(&self.terrain_generator, key);
                        self.chunks.insert(k, chunk);
                        self.order.push(key);
                        proof {
                            lemma_push_fresh(before.keys(), key);
                            assert forall|other: ChunkKey|
                                self.chunks@.contains_key(other.key()) <==> #[trigger] self.order@.contains(
                                    other,
                                ) by {
                                if other.key() == key.key() {
                                    ChunkKey::lemma_key_injective(other, key);
                                }
                                assert(before.chunks@.contains_key(other.key())
                                    <==> before.order@.contains(other));
                            }
                            assert forall|other: ChunkKey|
                                other != key implies self.chunk_at(other) == before.chunk_at(
                                other,
                            ) by {
                                if other.key() == key.key() {
                                    ChunkKey::lemma_key_injective(other, key);
                                }
                            }
                            assert forall|other: ChunkKey| #[trigger]
                                old(self).keys().contains(other) implies self.chunk_at(other)
                                == old(self).chunk_at(other) by {
                                assert(before.keys().contains(other));
                            }
                            assert forall|other: ChunkKey|
                                !old(self).keys().contains(other) && #[trigger] self.keys().contains(
                                    other,
                                ) implies self.chunk_at(other).is_fresh(
                                &self.generator(),
                                other,
                            ) by {
                                if other != key {
                                    assert(before.keys().contains(other));
                                }
                            }
                        }
                    }
                    x = x + 1;
                }
                z = z + 1;
            }
        }
        let ghost grown = *self;
        let ghost in_view = is_in_view(center, render_distance as int);
        let mut i: usize = 0;
        let ghost mut seen: int = 0;
        proof {
            grown.keys().take(0).lemma_filter_len(in_view);
            assert(grown.keys().skip(0) =~= grown.keys());
            assert(Seq::<ChunkKey>::empty() + grown.keys() =~= grown.keys());
        }
        while i < self.order.len()
            invariant
                grown.wf(),
                self.wf(),
                self.generator() == grown.generator(),
                reach == render_distance,
                in_view == is_in_view(center, render_distance as int),
                0 <= seen <= grown.keys().len(),
                self.keys() == grown.keys().take(seen).filter(in_view) + grown.keys().skip(seen),
                i == grown.keys().take(seen).filter(in_view).len(),
                forall|k: ChunkKey|
                    #[trigger] self.keys().contains(k) ==> grown.keys().contains(k)
                        && self.chunk_at(k) == grown.chunk_at(k),
            decreases grown.keys().len() - seen,
        {
            let key: ChunkKey = self.order[i];
            let ghost kept = grown.keys().take(seen).filter(in_view);
            let ghost before = *self;
            proof {
                assert(self.keys()[i as int] == grown.keys().skip(seen)[0]);
                lemma_filter_take_step(grown.keys(), seen, in_view);
            }
            let dx: i64 = if key.x >= center.x {
                key.x as i64 - center.x as i64
            } else {
                center.x as i64 - key.x as i64
            };
            let dz: i64 = if key.z >= center.z {
                key.z as i64 - center.z as i64
            } else {
                center.z as i64 - key.z as i64
            };
            if dx <= reach && dz <= reach {
                proof {
                    assert(self.keys() =~= kept.push(key) + grown.keys().skip(seen + 1));
                }
                i = i + 1;
            } else {
                let k: u64 = key.to_key();
                self.chunks.remove(&k);
                self.order.remove(i);
                proof {
                    assert(self.keys() =~= kept + grown.keys().skip(seen + 1));
                    lemma_remove_distinct(before.keys(), i as int);
                    assert(self.keys() == before.keys().remove(i as int));
                    assert forall|other: ChunkKey|
                        self.chunks@.contains_key(other.key()) <==> #[trigger] self.order@.contains(
                            other,
                        ) by {
                        if other.key() == key.key() {
                            ChunkKey::lemma_key_injective(other, key);
                        }
                        assert(before.chunks@.contains_key(other.key()) <==> before.order@.contains(
                            other,
                        ));
                    }
                    assert forall|other: ChunkKey| #[trigger]
                        self.keys().contains(other) implies grown.keys().contains(other)
                        && self.chunk_at(other) == grown.chunk_at(other) by {
                        assert(before.keys().contains(other));
                        if other.key() == key.key() {
                            ChunkKey::lemma_key_injective(other, key);
                        }
                    }
                }
            }
            proof {
                seen = seen + 1;
            }
        }
        proof {
            assert(seen == grown.keys().len());
            grown.keys().lemma_take_len();
            assert(self.keys() =~= grown.keys().filter(in_view));
            lemma_filter_members(grown.keys(), in_view);
            assert forall|k: ChunkKey| #[trigger]
                self.keys().contains(k) <==> manhattan(k, center) <= render_distance || (old(self).keys().contains(k) && key_distance(k, center) <= render_distance) by {
                assert(grown.keys().contains(k) <==> old(self).keys().contains(k) || (manhattan(
                    k,
                    center,
                ) <= reach && reach >= 0));
            }
            assert forall|k: ChunkKey|
                old(self).keys().contains(k) && #[trigger] self.keys().contains(
                    k,
                ) implies self.chunk_at(k) == old(self).chunk_at(k) by {
                assert(grown.keys().contains(k));
            }
            assert forall|k: ChunkKey|
                !old(self).keys().contains(k) && #[trigger] self.keys().contains(
                    k,
                ) implies self.chunk_at(k).is_fresh(&self.generator(), k) by {
                assert(grown.keys().contains(k));
            }
        }
    }
}

} // verus!
