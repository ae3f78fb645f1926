//! Objects placed tile by tile: every object takes up a rectangle of tiles,
//! and every tile that is taken points back to its object, so that the
//! object on a tile is found at once.
//!
//! The tiles are kept chunk by chunk; a chunk is made when an object first
//! reaches into it.

use vstd::prelude::*;
use std::collections::HashMap;
use crate::coords::GridCoord;
use crate::handle::ObjectHandle;
use crate::objects::next_generation;
use crate::registry::ObjectTypeId;
use crate::registry::ObjectTypeRegistry;
use crate::terrain::MAX_CHUNK_SIZE;
use crate::units::floor_div;
use crate::units::floor_div_spec;
use crate::units::lemma_cell_number;
use crate::units::lemma_floor_div_bounds;
use crate::units::lemma_floor_div_in_range;
use crate::units::WorldOffset;
use crate::units::UNITS_PER_WORLD_UNIT;
use vstd::arithmetic::div_mod::lemma_fundamental_div_mod;

verus! {

broadcast use vstd::std_specs::hash::group_hash_axioms;

/// Most tiles that an object takes up along an axis.
pub const MAX_FOOTPRINT_TILES: i32 = 255;

/// Most slots a world holds: a tile names its object by the slot's index and
/// one, in thirty-two bits.
pub const MAX_TILE_OBJECTS: usize = 0xffff_ffff;

/// Marks the tile at the origin of an object's footprint.
pub const FLAG_ORIGIN: u16 = 1;

/// Why an object was not placed.
#[derive(Clone, Copy, Debug, PartialEq, Eq, Structural)]
pub enum PlaceError {
    /// The type is not registered, or the footprint is not between one tile
    /// and `MAX_FOOTPRINT_TILES` along both axes.
    InvalidFootprint,
    /// A tile of the footprint is taken.
    Occupied,
}

/// One object placed on tiles.
#[derive(Clone, Copy, Debug, PartialEq, Eq, Structural)]
pub struct ObjectInstance {
    pub type_id: ObjectTypeId,
    /// The tile of least `x` and `z` that the object takes up.
    pub origin_tile: GridCoord,
    /// Tiles that it takes up along `x` and `z`.
    pub size_tiles: GridCoord,
    /// Where its middle lies on the ground plane.
    pub center_world: WorldOffset,
    /// Rotation about the up axis, in thousandths of a radian.
    pub yaw: i32,
}

/// What a tile knows of the object on it.
#[derive(Clone, Copy, Debug, PartialEq, Eq, Structural)]
pub struct TileObjectSlot {
    /// Nothing for a free tile; else the index of the object's slot, and one.
    pub object_index_plus1: u32,
    /// Where in the object's footprint the tile lies.
    pub local_x: u8,
    pub local_z: u8,
    pub flags: u16,
}

/// One slot of the object table.
#[derive(Clone, Copy, Debug, PartialEq, Eq, Structural)]
pub struct TileObjectEntry {
    /// Changes with every removal; never zero.
    pub generation: u32,
    pub instance: Option<ObjectInstance>,
}

/// The tiles of one chunk, row by row.
struct ObjectChunk {
    tiles: Vec<TileObjectSlot>,
    dirty: bool,
}

/// A free tile.
pub open spec fn empty_slot() -> TileObjectSlot {
    TileObjectSlot { object_index_plus1: 0, local_x: 0, local_z: 0, flags: 0 }
}

/// The rectangle of `size` tiles from `origin` on holds the tile.
pub open spec fn in_rect(origin: GridCoord, size: GridCoord, t: GridCoord) -> bool {
    &&& origin.x <= t.x < origin.x + size.x
    &&& origin.z <= t.z < origin.z + size.z
}

/// The object takes the tile up.
pub open spec fn covers(inst: ObjectInstance, t: GridCoord) -> bool {
    in_rect(inst.origin_tile, inst.size_tiles, t)
}

/// A footprint that can be placed: between one tile and
/// `MAX_FOOTPRINT_TILES` along both axes.
pub open spec fn size_ok(size: GridCoord) -> bool {
    1 <= size.x <= MAX_FOOTPRINT_TILES && 1 <= size.z <= MAX_FOOTPRINT_TILES
}

/// All tiles of the footprint have coordinates.
pub open spec fn fits(origin: GridCoord, size: GridCoord) -> bool {
    origin.x + size.x - 1 <= i32::MAX && origin.z + size.z - 1 <= i32::MAX
}

/// What tile `t` of the footprint at `origin` knows of the object in slot
/// `index`.
pub open spec fn slot_for(index: u32, origin: GridCoord, t: GridCoord) -> TileObjectSlot {
    TileObjectSlot {
        object_index_plus1: (index + 1) as u32,
        local_x: (t.x - origin.x) as u8,
        local_z: (t.z - origin.z) as u8,
        flags: if t == origin {
            FLAG_ORIGIN
        } else {
            0
        },
    }
}

/// The chunk that holds a tile, in chunks of `cs` tiles a side.
pub open spec fn tile_chunk(t: GridCoord, cs: int) -> GridCoord {
    GridCoord { x: floor_div_spec(t.x as int, cs) as i32, z: floor_div_spec(t.z as int, cs) as i32 }
}

/// Where in its chunk's rows a tile stands.
pub open spec fn tile_local(t: GridCoord, cs: int) -> int {
    (t.z as int % cs) * cs + (t.x as int % cs)
}

/// The tiles of the footprint that are done when its rows before `dz` and,
/// of row `dz`, the tiles before `dx` are.
pub open spec fn done_before(origin: GridCoord, size: GridCoord, dx: int, dz: int, t: GridCoord) -> bool {
    in_rect(origin, size, t) && (t.z - origin.z < dz || (t.z - origin.z == dz && t.x - origin.x
        < dx))
}

/// Whether the chunk holds a tile of the rectangle, in chunks of `cs` tiles
/// a side.
pub open spec fn reaches(origin: GridCoord, size: GridCoord, chunk: GridCoord, cs: int) -> bool {
    exists|t: GridCoord| in_rect(origin, size, t) && #[trigger] tile_chunk(t, cs) == chunk
}

/// A chunk and a place in it name one tile only, and the place is one of
/// the chunk's `cs * cs`.
pub proof fn lemma_tile_split(a: GridCoord, b: GridCoord, cs: int)
    requires
        cs >= 1,
    ensures
        0 <= tile_local(a, cs) < cs * cs,
        tile_chunk(a, cs) == tile_chunk(b, cs) && tile_local(a, cs) == tile_local(b, cs) ==> a
            == b,
{
    lemma_fundamental_div_mod(a.x as int, cs);
    lemma_fundamental_div_mod(a.z as int, cs);
    lemma_fundamental_div_mod(b.x as int, cs);
    lemma_fundamental_div_mod(b.z as int, cs);
    lemma_floor_div_in_range(a.x as int, cs);
    lemma_floor_div_in_range(a.z as int, cs);
    lemma_floor_div_in_range(b.x as int, cs);
    lemma_floor_div_in_range(b.z as int, cs);
    lemma_cell_number(cs, cs, a.x as int % cs, a.z as int % cs);
    lemma_cell_number(cs, cs, b.x as int % cs, b.z as int % cs);
}

impl TileObjectSlot {
    /// The index of the slot of the object on the tile, if one is.
    pub open spec fn owner(self) -> Option<u32> {
        if self.object_index_plus1 == 0 {
            None
        } else {
            Some((self.object_index_plus1 - 1) as u32)
        }
    }

    pub fn is_empty(self) -> (b: bool)
        ensures
            b == (self.owner() is None),
    {
        self.object_index_plus1 == 0
    }

    pub fn object_index(self) -> (r: Option<u32>)
        ensures
            r == self.owner(),
    {
        if self.object_index_plus1 == 0 {
            None
        } else {
            Some(self.object_index_plus1 - 1)
        }
    }

    /// Whether the tile is the origin of its object's footprint.
    pub fn is_origin(self) -> (b: bool)
        ensures
            b == (self.flags as int % 2 == 1),
    {
        self.flags % 2 == 1
    }
}

impl ObjectChunk {
    /// A chunk of free tiles.
    fn new(chunk_size: i32) -> (c: ObjectChunk)
        requires
            1 <= chunk_size <= MAX_CHUNK_SIZE,
        ensures
            c.tiles@.len() == chunk_size * chunk_size,
            forall|i: int| 0 <= i < c.tiles@.len() ==> c.tiles@[i] == empty_slot(),
            c.dirty,
    {
        let n: usize = chunk_size as usize;
        assert(n * n <= 32767 * 32767) by (nonlinear_arith)
            requires
                0 <= n <= 32767,
        ;
        let len: usize = n * n;
        let mut tiles: Vec<TileObjectSlot> = Vec::new();
        let mut i: usize = 0;
        while i < len
            invariant
                0 <= i <= len,
                tiles@.len() == i,
                forall|j: int| 0 <= j < i ==> tiles@[j] == empty_slot(),
            decreases len - i,
        {
            tiles.push(TileObjectSlot { object_index_plus1: 0, local_x: 0, local_z: 0, flags: 0 });
            i = i + 1;
        }
        ObjectChunk { tiles, dirty: true }
    }
}

/// The chunk that holds a tile, and where in the chunk the tile lies.
pub fn tile_to_chunk_local(tile: GridCoord, chunk_size: i32) -> (r: (GridCoord, GridCoord))
    requires
        chunk_size >= 1,
    ensures
        r.0 == tile_chunk(tile, chunk_size as int),
        r.1.x == tile.x as int % (chunk_size as int),
        r.1.z == tile.z as int % (chunk_size as int),
        0 <= r.1.x < chunk_size,
        0 <= r.1.z < chunk_size,
{
    let cx: i32 = floor_div(tile.x, chunk_size);
    let cz: i32 = floor_div(tile.z, chunk_size);
    proof {
        lemma_fundamental_div_mod(tile.x as int, chunk_size as int);
        lemma_fundamental_div_mod(tile.z as int, chunk_size as int);
        lemma_floor_div_bounds(tile.x as int, chunk_size as int);
        lemma_floor_div_bounds(tile.z as int, chunk_size as int);
        assert(cx * chunk_size == chunk_size * cx) by (nonlinear_arith);
        assert(cz * chunk_size == chunk_size * cz) by (nonlinear_arith);
    }
    let lx: i64 = tile.x as i64 - (cx as i64) * (chunk_size as i64);
    let lz: i64 = tile.z as i64 - (cz as i64) * (chunk_size as i64);
    (GridCoord { x: cx, z: cz }, GridCoord { x: lx as i32, z: lz as i32 })
}

/// Where in its chunk's rows the tile at `local` stands.
fn local_index(local: GridCoord, chunk_size: i32) -> (at: usize)
    requires
        1 <= chunk_size <= MAX_CHUNK_SIZE,
        0 <= local.x < chunk_size,
        0 <= local.z < chunk_size,
    ensures
        at == local.z * chunk_size + local.x,
        at < chunk_size * chunk_size,
{
    proof {
        lemma_cell_number(chunk_size as int, chunk_size as int, local.x as int, local.z as int);
        assert(chunk_size * chunk_size <= 32767 * 32767) by (nonlinear_arith)
            requires
                1 <= chunk_size <= 32767,
        ;
        assert(0 <= local.z * chunk_size) by (nonlinear_arith)
            requires
                0 <= local.z,
                1 <= chunk_size,
        ;
    }
    (local.z as usize) * (chunk_size as usize) + (local.x as usize)
}

/// The world of objects placed on tiles.
pub struct ObjectWorld {
    chunk_size: i32,
    chunks: HashMap<u64, ObjectChunk>,
    objects: Vec<TileObjectEntry>,
    free_list: Vec<u32>,
}

impl ObjectWorld {
    pub closed spec fn chunk_size_spec(&self) -> i32 {
        self.chunk_size
    }

    /// The slots of the object table, by index.
    pub closed spec fn slots(&self) -> Seq<TileObjectEntry> {
        self.objects@
    }

    /// The freed slot indices, the one to be reused next last.
    pub closed spec fn free(&self) -> Seq<u32> {
        self.free_list@
    }

    /// What a tile knows of the object on it; a tile of a chunk that was not
    /// made yet is free.
    pub closed spec fn slot_at(&self, t: GridCoord) -> TileObjectSlot {
        let c = tile_chunk(t, self.chunk_size as int);
        if self.chunks@.contains_key(c.key()) {
            self.chunks@[c.key()].tiles@[tile_local(t, self.chunk_size as int)]
        } else {
            empty_slot()
        }
    }

    /// Whether an object has reached into the chunk, or left it, since it was
    /// last marked clean.
    pub closed spec fn is_dirty(&self, chunk: GridCoord) -> bool {
        self.chunks@.contains_key(chunk.key()) && self.chunks@[chunk.key()].dirty
    }

    /// Chunks are of a size that can be kept, and every chunk has all its
    /// tiles.
    pub closed spec fn chunks_whole(&self) -> bool {
        &&& 1 <= self.chunk_size <= MAX_CHUNK_SIZE
        &&& forall|c: GridCoord| #[trigger]
            self.chunks@.contains_key(c.key()) ==> self.chunks@[c.key()].tiles@.len()
                == self.chunk_size * self.chunk_size
    }

    /// The index of the slot of the object on a tile, if one is.
    pub open spec fn owner(&self, t: GridCoord) -> Option<u32> {
        self.slot_at(t).owner()
    }

    /// What a handle names: the object in its slot, if the slot exists, is of
    /// the handle's generation and is taken.
    pub open spec fn lookup(&self, h: ObjectHandle) -> Option<ObjectInstance> {
        if h.index < self.slots().len() && self.slots()[h.index as int].generation
            == h.generation {
            self.slots()[h.index as int].instance
        } else {
            None
        }
    }

    /// Slot `index` holds an object that takes tile `t` up.
    pub open spec fn holds(&self, index: int, t: GridCoord) -> bool {
        &&& 0 <= index < self.slots().len()
        &&& self.slots()[index].instance matches Some(inst) && covers(inst, t)
    }

    /// A tile that is taken names a slot that holds an object whose
    /// footprint has the tile, and knows its place in that footprint.
    pub open spec fn tile_in_order(&self, t: GridCoord) -> bool {
        self.slot_at(t).owner() matches Some(index) ==> self.holds(index as int, t)
            && self.slot_at(t) == slot_for(
            index,
            self.slots()[index as int].instance.unwrap().origin_tile,
            t,
        )
    }

    /// Tiles and objects agree. Every tile that is taken names a slot that
    /// holds an object whose footprint has the tile, and knows its place in
    /// that footprint; every tile of the footprint of every object names the
    /// object's slot; and every footprint is of a size that can be placed and
    /// lies on tiles that have coordinates. The free list names exactly the
    /// empty slots, each once, and no generation is zero.
    pub open spec fn wf(&self) -> bool {
        &&& self.chunks_whole()
        &&& self.slots().len() <= MAX_TILE_OBJECTS
        &&& self.free().no_duplicates()
        &&& forall|k: int|
            0 <= k < self.free().len() ==> (#[trigger] self.free()[k]) < self.slots().len()
                && self.slots()[self.free()[k] as int].instance is None
        &&& forall|i: int|
            0 <= i < self.slots().len() && (#[trigger] self.slots()[i]).instance is None
                ==> self.free().contains(i as u32)
        &&& forall|i: int| 0 <= i < self.slots().len() ==> (#[trigger] self.slots()[i]).generation >= 1
        &&& forall|i: int|
            0 <= i < self.slots().len() ==> match (#[trigger] self.slots()[i]).instance {
                Some(inst) => size_ok(inst.size_tiles) && fits(inst.origin_tile, inst.size_tiles),
                None => true,
            }
        &&& forall|t: GridCoord| #[trigger] self.tile_in_order(t)
        &&& forall|index: int, t: GridCoord| #[trigger]
            self.holds(index, t) ==> self.owner(t) == Some(index as u32)
    }

    /// No slot is left to place an object in.
    pub open spec fn full(&self) -> bool {
        self.free().len() == 0 && self.slots().len() == MAX_TILE_OBJECTS
    }

    /// The handle that the next placement returns: a freed slot under its
    /// present generation, or a new slot under generation one.
    pub open spec fn next_handle(&self) -> ObjectHandle {
        if self.free().len() > 0 {
            ObjectHandle {
                index: self.free().last(),
                generation: self.slots()[self.free().last() as int].generation,
            }
        } else {
            ObjectHandle { index: self.slots().len() as u32, generation: 1 }
        }
    }

    /// An empty world over chunks of `chunk_size` tiles a side; a size below
    /// one is taken as one.
    pub fn new(chunk_size: i32) -> (w: ObjectWorld)
        requires
            chunk_size <= MAX_CHUNK_SIZE,
        ensures
            w.wf(),
            w.chunk_size_spec() == if chunk_size >= 1 {
                chunk_size
            } else {
                1
            },
            w.slots().len() == 0,
            w.free().len() == 0,
            forall|t: GridCoord| w.slot_at(t) == empty_slot(),
            forall|c: GridCoord| !w.is_dirty(c),
    {
        ObjectWorld {
            chunk_size: if chunk_size >= 1 {
                chunk_size
            } else {
                1
            },
            chunks: HashMap::new(),
            objects: Vec::new(),
            free_list: Vec::new(),
        }
    }

    /// Tiles along one edge of a chunk.
    #[verifier::when_used_as_spec(chunk_size_spec)]
    pub fn chunk_size(&self) -> (s: i32)
        ensures
            s == self.chunk_size(),
    {
        self.chunk_size
    }

    pub fn is_full(&self) -> (b: bool)
        ensures
            b == self.full(),
    {
        self.free_list.len() == 0 && self.objects.len() == MAX_TILE_OBJECTS
    }

    /// What the tile knows of the object on it.
    fn read_slot(&self, tile: GridCoord) -> (slot: TileObjectSlot)
        requires
            self.chunks_whole(),
        ensures
            slot == self.slot_at(tile),
    {
        let (chunk, local) = tile_to_chunk_local(tile, self.chunk_size);
        let key: u64 = chunk.to_key();
        proof {
            lemma_tile_split(tile, tile, self.chunk_size as int);
            assert(self.chunks@.contains_key(chunk.key()) ==> self.chunks@[chunk.key()].tiles@.len()
                == self.chunk_size * self.chunk_size);
        }
        match self.chunks.get(&key) {
            Some(c) => {
                let at: usize = local_index(local, self.chunk_size);
                c.tiles[at]
            },
            None => TileObjectSlot { object_index_plus1: 0, local_x: 0, local_z: 0, flags: 0 },
        }
    }

    /// Lets the tile know `slot`, and marks its chunk dirty; the chunk is
    /// made if it was not yet.
    fn write_slot(&mut self, tile: GridCoord, slot: TileObjectSlot)
        requires
            old(self).chunks_whole(),
        ensures
            final(self).chunks_whole(),
            final(self).chunk_size() == old(self).chunk_size(),
            final(self).slots() == old(self).slots(),
            final(self).free() == old(self).free(),
            forall|t: GridCoord| #[trigger]
                final(self).slot_at(t) == if t == tile {
                    slot
                } else {
                    old(self).slot_at(t)
                },
            forall|c: GridCoord| #[trigger]
                final(self).is_dirty(c) == (c == tile_chunk(tile, old(self).chunk_size() as int)
                    || old(self).is_dirty(c)),
    {
        let cs: i32 = self.chunk_size;
        let (chunk, local) = tile_to_chunk_local(tile, cs);
        let key: u64 = chunk.to_key();
        proof {
            lemma_tile_split(tile, tile, cs as int);
            assert(self.chunks@.contains_key(chunk.key()) ==> self.chunks@[chunk.key()].tiles@.len()
                == cs * cs);
        }
        let at: usize = local_index(local, cs);
        let found: ObjectChunk = match self.chunks.remove(&key) {
            Some(c) => c,
            None => ObjectChunk::new(cs),
        };
        let ghost before_tiles = found.tiles@;
        let mut tiles: Vec<TileObjectSlot> = found.tiles;
        tiles.set(at, slot);
        self.chunks.insert(key, ObjectChunk { tiles, dirty: true });
        proof {
            assert forall|c: GridCoord| #[trigger]
                self.chunks@.contains_key(c.key()) implies self.chunks@[c.key()].tiles@.len() == cs
                * cs by {
                if c.key() == chunk.key() {
                    GridCoord::lemma_key_injective(c, chunk);
                } else {
                    assert(old(self).chunks@.contains_key(c.key()));
                }
            }
            assert forall|t: GridCoord| #[trigger]
                self.slot_at(t) == if t == tile {
                    slot
                } else {
                    old(self).slot_at(t)
                } by {
                let c = tile_chunk(t, cs as int);
                lemma_tile_split(t, tile, cs as int);
                if c.key() == chunk.key() {
                    GridCoord::lemma_key_injective(c, chunk);
                }
            }
            assert forall|c: GridCoord| #[trigger]
                self.is_dirty(c) == (c == chunk || old(self).is_dirty(c)) by {
                if c.key() == chunk.key() {
                    GridCoord::lemma_key_injective(c, chunk);
                }
            }
        }
    }

    /// Whether no tile of the rectangle is taken.
    fn footprint_free(&self, origin: GridCoord, size: GridCoord) -> (b: bool)
        requires
            self.chunks_whole(),
            size_ok(size),
            fits(origin, size),
        ensures
            b <==> forall|t: GridCoord|
                in_rect(origin, size, t) ==> (#[trigger] self.slot_at(t)).owner() is None,
    {
        let mut dz: i32 = 0;
        while dz < size.z
            invariant
                0 <= dz <= size.z,
                self.chunks_whole(),
                size_ok(size),
                fits(origin, size),
                forall|t: GridCoord|
                    done_before(origin, size, 0, dz as int, t) ==> (#[trigger] self.slot_at(
                        t,
                    )).owner() is None,
            decreases size.z - dz,
        {
            let mut dx: i32 = 0;
            while dx < size.x
                invariant
                    0 <= dx <= size.x,
                    0 <= dz < size.z,
                    self.chunks_whole(),
                    size_ok(size),
                    fits(origin, size),
                    forall|t: GridCoord|
                        done_before(origin, size, dx as int, dz as int, t) ==> (
                        #[trigger] self.slot_at(t)).owner() is None,
                decreases size.x - dx,
            {
                let t: GridCoord = GridCoord { x: origin.x + dx, z: origin.z + dz };
                if !self.read_slot(t).is_empty() {
                    assert(in_rect(origin, size, t) && self.slot_at(t).owner() is Some);
                    return false;
                }
                dx = dx + 1;
            }
            dz = dz + 1;
        }
        true
    }

    /// Lets every tile of the rectangle know the object in slot `index`, or,
    /// where `place` is not set, frees every tile of it that knows that
    /// object.
    fn stamp(&mut self, origin: GridCoord, size: GridCoord, index: u32, place: bool)
        requires
            old(self).chunks_whole(),
            size_ok(size),
            fits(origin, size),
            index < MAX_TILE_OBJECTS,
            !place ==> forall|t: GridCoord|
                in_rect(origin, size, t) ==> (#[trigger] old(self).slot_at(t)).owner() == Some(
                    index,
                ),
        ensures
            final(self).chunks_whole(),
            final(self).chunk_size() == old(self).chunk_size(),
            final(self).slots() == old(self).slots(),
            final(self).free() == old(self).free(),
            forall|t: GridCoord| #[trigger]
                final(self).slot_at(t) == if !in_rect(origin, size, t) {
                    old(self).slot_at(t)
                } else if place {
                    slot_for(index, origin, t)
                } else {
                    empty_slot()
                },
            forall|c: GridCoord| #[trigger]
                final(self).is_dirty(c) == (old(self).is_dirty(c) || reaches(
                    origin,
                    size,
                    c,
                    old(self).chunk_size() as int,
                )),
    {
        let ghost cs: int = self.chunk_size as int;
        let mut dz: i32 = 0;
        while dz < size.z
            invariant
                0 <= dz <= size.z,
                self.chunks_whole(),
                size_ok(size),
                fits(origin, size),
                index < MAX_TILE_OBJECTS,
                cs == old(self).chunk_size(),
                self.chunk_size() == old(self).chunk_size(),
                self.slots() == old(self).slots(),
                self.free() == old(self).free(),
                !place ==> forall|t: GridCoord|
                    in_rect(origin, size, t) ==> (#[trigger] old(self).slot_at(t)).owner() == Some(
                        index,
                    ),
                forall|t: GridCoord| #[trigger]
                    self.slot_at(t) == if !done_before(origin, size, 0, dz as int, t) {
                        old(self).slot_at(t)
                    } else if place {
                        slot_for(index, origin, t)
                    } else {
                        empty_slot()
                    },
                forall|c: GridCoord| #[trigger]
                    self.is_dirty(c) == (old(self).is_dirty(c) || exists|t: GridCoord|
                        done_before(origin, size, 0, dz as int, t) && #[trigger] tile_chunk(t, cs)
                            == c),
            decreases size.z - dz,
        {
            let mut dx: i32 = 0;
            while dx < size.x
                invariant
                    0 <= dx <= size.x,
                    0 <= dz < size.z,
                    self.chunks_whole(),
                    size_ok(size),
                    fits(origin, size),
                    index < MAX_TILE_OBJECTS,
                    cs == old(self).chunk_size(),
                    self.chunk_size() == old(self).chunk_size(),
                    self.slots() == old(self).slots(),
                    self.free() == old(self).free(),
                    !place ==> forall|t: GridCoord|
                        in_rect(origin, size, t) ==> (#[trigger] old(self).slot_at(t)).owner()
                            == Some(index),
                    forall|t: GridCoord| #[trigger]
                        self.slot_at(t) == if !done_before(origin, size, dx as int, dz as int, t) {
                            old(self).slot_at(t)
                        } else if place {
                            slot_for(index, origin, t)
                        } else {
                            empty_slot()
                        },
                    forall|c: GridCoord| #[trigger]
                        self.is_dirty(c) == (old(self).is_dirty(c) || exists|t: GridCoord|
                            done_before(origin, size, dx as int, dz as int, t) && #[trigger] tile_chunk(
                                t,
                                cs,
                            ) == c),
                decreases size.x - dx,
            {
                let tile: GridCoord = GridCoord { x: origin.x + dx, z: origin.z + dz };
                let ghost before = *self;
                if place {
                    self.write_slot(
                        tile,
                        TileObjectSlot {
                            object_index_plus1: index + 1,
                            local_x: dx as u8,
                            local_z: dz as u8,
                            flags: if dx == 0 && dz == 0 {
                                FLAG_ORIGIN
                            } else {
                                0
                            },
                        },
                    );
                } else {
                    let there: TileObjectSlot = self.read_slot(tile);
                    assert(before.slot_at(tile) == old(self).slot_at(tile));
                    assert(old(self).slot_at(tile).owner() == Some(index));
                    if there.object_index() == Some(index) {
                        self.write_slot(
                            tile,
                            TileObjectSlot { object_index_plus1: 0, local_x: 0, local_z: 0, flags: 0 },
                        );
                    }
                }
                proof {
                    assert forall|t: GridCoord| #[trigger]
                        self.slot_at(t) == if !done_before(
                            origin,
                            size,
                            dx + 1,
                            dz as int,
                            t,
                        ) {
                            old(self).slot_at(t)
                        } else if place {
                            slot_for(index, origin, t)
                        } else {
                            empty_slot()
                        } by {
                        assert(before.slot_at(t) == if !done_before(
                            origin,
                            size,
                            dx as int,
                            dz as int,
                            t,
                        ) {
                            old(self).slot_at(t)
                        } else if place {
                            slot_for(index, origin, t)
                        } else {
                            empty_slot()
                        });
                    }
                    assert forall|c: GridCoord| #[trigger]
                        self.is_dirty(c) == (old(self).is_dirty(c) || exists|t: GridCoord|
                            done_before(origin, size, dx + 1, dz as int, t) && #[trigger] tile_chunk(
                                t,
                                cs,
                            ) == c) by {
                        assert(before.is_dirty(c) == (old(self).is_dirty(c) || exists|t: GridCoord|
                            done_before(origin, size, dx as int, dz as int, t)
                                && #[trigger] tile_chunk(t, cs) == c));
                        if c == tile_chunk(tile, cs) {
                            assert(done_before(origin, size, dx + 1, dz as int, tile));
                        }
                        if exists|t: GridCoord|
                            done_before(origin, size, dx as int, dz as int, t)
                                && #[trigger] tile_chunk(t, cs) == c {
                            let t = choose|t: GridCoord|
                                done_before(origin, size, dx as int, dz as int, t)
                                    && #[trigger] tile_chunk(t, cs) == c;
                            assert(done_before(origin, size, dx + 1, dz as int, t));
                        }
                        if exists|t: GridCoord|
                            done_before(origin, size, dx + 1, dz as int, t) && #[trigger] tile_chunk(
                                t,
                                cs,
                            ) == c {
                            let t = choose|t: GridCoord|
                                done_before(origin, size, dx + 1, dz as int, t)
                                    && #[trigger] tile_chunk(t, cs) == c;
                            if t != tile {
                                assert(done_before(origin, size, dx as int, dz as int, t));
                            }
                        }
                    }
                }
                dx = dx + 1;
            }
            proof {
                assert forall|t: GridCoord|
                    done_before(origin, size, size.x as int, dz as int, t) == done_before(
                        origin,
                        size,
                        0,
                        dz + 1,
                        t,
                    ) by {}
                assert forall|c: GridCoord| #[trigger]
                    self.is_dirty(c) == (old(self).is_dirty(c) || exists|t: GridCoord|
                        done_before(origin, size, 0, dz + 1, t) && #[trigger] tile_chunk(t, cs)
                            == c) by {
                    if exists|t: GridCoord|
                        done_before(origin, size, size.x as int, dz as int, t)
                            && #[trigger] tile_chunk(t, cs) == c {
                        let t = choose|t: GridCoord|
                            done_before(origin, size, size.x as int, dz as int, t)
                                && #[trigger] tile_chunk(t, cs) == c;
                        assert(done_before(origin, size, 0, dz + 1, t));
                    }
                    if exists|t: GridCoord|
                        done_before(origin, size, 0, dz + 1, t) && #[trigger] tile_chunk(t, cs)
                            == c {
                        let t = choose|t: GridCoord|
                            done_before(origin, size, 0, dz + 1, t) && #[trigger] tile_chunk(t, cs)
                                == c;
                        assert(done_before(origin, size, size.x as int, dz as int, t));
                    }
                }
            }
            dz = dz + 1;
        }
        proof {
            assert forall|c: GridCoord| #[trigger]
                self.is_dirty(c) == (old(self).is_dirty(c) || reaches(
                    origin,
                    size,
                    c,
                    old(self).chunk_size() as int,
                )) by {
                if exists|t: GridCoord|
                    done_before(origin, size, 0, size.z as int, t) && #[trigger] tile_chunk(t, cs)
                        == c {
                    let t = choose|t: GridCoord|
                        done_before(origin, size, 0, size.z as int, t) && #[trigger] tile_chunk(
                            t,
                            cs,
                        ) == c;
                    assert(in_rect(origin, size, t));
                }
                if reaches(origin, size, c, old(self).chunk_size() as int) {
                    let t = choose|t: GridCoord|
                        in_rect(origin, size, t) && #[trigger] tile_chunk(t, cs) == c;
                    assert(done_before(origin, size, 0, size.z as int, t));
                }
            }
        }
    }

    /// What placing `inst` does to a world, `before` against `self` after:
    /// the handle returned is `next_handle()`, which named nothing; now it
    /// names the object, and every other handle names what it did. The object
    /// went into the freed slot named last in the free list, or into a new
    /// slot at the end. Every tile of its footprint knows it and its own
    /// place in the footprint; no other tile has changed; and every chunk
    /// that the footprint reaches into is dirty.
    pub open spec fn placed(
        &self,
        before: ObjectWorld,
        inst: ObjectInstance,
        handle: ObjectHandle,
    ) -> bool {
        &&& handle == before.next_handle()
        &&& before.lookup(handle) is None
        &&& self.lookup(handle) == Some(inst)
        &&& forall|h: ObjectHandle| h != handle ==> self.lookup(h) == before.lookup(h)
        &&& before.free().len() > 0 ==> self.free() == before.free().drop_last() && self.slots()
            == before.slots().update(
            handle.index as int,
            TileObjectEntry { generation: handle.generation, instance: Some(inst) },
        )
        &&& before.free().len() == 0 ==> self.free() == before.free() && self.slots()
            == before.slots().push(TileObjectEntry { generation: 1, instance: Some(inst) })
        &&& self.chunk_size() == before.chunk_size()
        &&& forall|t: GridCoord| #[trigger]
            self.slot_at(t) == if covers(inst, t) {
                slot_for(handle.index, inst.origin_tile, t)
            } else {
                before.slot_at(t)
            }
        &&& forall|c: GridCoord| #[trigger]
            self.is_dirty(c) == (before.is_dirty(c) || reaches(
                inst.origin_tile,
                inst.size_tiles,
                c,
                before.chunk_size() as int,
            ))
    }

    /// How an attempt to place `inst` ends, where `valid` says whether its
    /// type and footprint are in order: refused as invalid; refused because a
    /// tile of the footprint is taken; or placed. A refusal changes nothing.
    pub open spec fn tried(
        &self,
        before: ObjectWorld,
        valid: bool,
        inst: ObjectInstance,
        r: Result<ObjectHandle, PlaceError>,
    ) -> bool {
        if !valid {
            r == Err::<ObjectHandle, PlaceError>(PlaceError::InvalidFootprint) && *self == before
        } else if !(forall|t: GridCoord|
            covers(inst, t) ==> (#[trigger] before.slot_at(t)).owner() is None) {
            r == Err::<ObjectHandle, PlaceError>(PlaceError::Occupied) && *self == before
        } else {
            r matches Ok(handle) && self.placed(before, inst, handle)
        }
    }

    /// What removing by `handle` does to a world, `before` against `self`
    /// after, and what it returns. If the handle named an object: the handle
    /// is returned; every tile of the object's footprint is free, and no
    /// other tile has changed; every chunk that the footprint reaches into is
    /// dirty; the slot is empty and of the next generation, so that the
    /// handle names nothing any more, and its index is last in the free list;
    /// every other handle names what it did. If it named none: `None` is
    /// returned and nothing has changed.
    pub open spec fn removed(
        &self,
        before: ObjectWorld,
        handle: ObjectHandle,
        r: Option<ObjectHandle>,
    ) -> bool {
        &&& r == if before.lookup(handle) is Some {
            Some(handle)
        } else {
            None
        }
        &&& self.lookup(handle) is None
        &&& forall|h: ObjectHandle| h != handle ==> self.lookup(h) == before.lookup(h)
        &&& before.lookup(handle) is None ==> *self == before
        &&& before.lookup(handle) matches Some(inst) ==> {
            &&& self.slots() == before.slots().update(
                handle.index as int,
                TileObjectEntry { generation: next_generation(handle.generation), instance: None },
            )
            &&& self.free() == before.free().push(handle.index)
            &&& self.chunk_size() == before.chunk_size()
            &&& forall|t: GridCoord| #[trigger]
                self.slot_at(t) == if covers(inst, t) {
                    empty_slot()
                } else {
                    before.slot_at(t)
                }
            &&& forall|c: GridCoord| #[trigger]
                self.is_dirty(c) == (before.is_dirty(c) || reaches(
                inst.origin_tile,
                inst.size_tiles,
                c,
                before.chunk_size() as int,
            ))
        }
    }

    /// The handle of the object on a tile: of the slot that the tile names,
    /// under the slot's generation.
    pub open spec fn handle_at(&self, t: GridCoord) -> Option<ObjectHandle> {
        match self.owner(t) {
            Some(index) => Some(
                ObjectHandle { index, generation: self.slots()[index as int].generation },
            ),
            None => None,
        }
    }

    /// The object that a handle names, if it names one.
    pub fn get(&self, handle: ObjectHandle) -> (r: Option<&ObjectInstance>)
        ensures
            match r {
                Some(inst) => self.lookup(handle) == Some(*inst),
                None => self.lookup(handle) is None,
            },
    {
        let i: usize = handle.index as usize;
        if i >= self.objects.len() {
            return None;
        }
        if self.objects[i].generation != handle.generation {
            return None;
        }
        self.objects[i].instance.as_ref()
    }

    /// The handle of the object on a tile, if one is.
    pub fn object_at_tile(&self, tile: GridCoord) -> (r: Option<ObjectHandle>)
        requires
            self.wf(),
        ensures
            r == self.handle_at(tile),
            r matches Some(h) ==> self.lookup(h) matches Some(inst) && covers(inst, tile),
    {
        let slot: TileObjectSlot = self.read_slot(tile);
        match slot.object_index() {
            Some(index) => {
                assert(self.tile_in_order(tile));
                let i: usize = index as usize;
                if i >= self.objects.len() {
                    return None;
                }
                if self.objects[i].instance.is_none() {
                    return None;
                }
                Some(ObjectHandle { index, generation: self.objects[i].generation })
            },
            None => None,
        }
    }

    /// Puts an object into the table and onto its tiles, if they are free.
    fn place_instance(&mut self, inst: ObjectInstance) -> (r: Result<ObjectHandle, PlaceError>)
        requires
            old(self).wf(),
            !old(self).full(),
            size_ok(inst.size_tiles),
            fits(inst.origin_tile, inst.size_tiles),
        ensures
            final(self).wf(),
            final(self).tried(*old(self), true, inst, r),
    {
        if !self.footprint_free(inst.origin_tile, inst.size_tiles) {
            return Err(PlaceError::Occupied);
        }
        let handle: ObjectHandle = match self.free_list.pop() {
            Some(index) => {
                proof {
                    let k = old(self).free().len() - 1;
                    assert(old(self).free()[k] == index);
                    assert forall|j: int| 0 <= j < self.free_list@.len() implies self.free_list@[j]
                        != index by {
                        assert(self.free_list@[j] == old(self).free()[j]);
                    }
                }
                let generation: u32 = self.objects[index as usize].generation;
                self.objects.set(index as usize, TileObjectEntry { generation, instance: Some(inst) });
                proof {
                    assert forall|i: int|
                        0 <= i < self.slots().len() && (#[trigger] self.slots()[i]).instance is None implies self.free().contains(
                        i as u32,
                    ) by {
                        assert(old(self).slots()[i].instance is None);
                        let k = choose|k: int|
                            0 <= k < old(self).free().len() && old(self).free()[k] == i as u32;
                        assert(self.free()[k] == i as u32);
                    }
                    assert forall|k: int| 0 <= k < self.free().len() implies (
                    #[trigger] self.free()[k]) < self.slots().len()
                        && self.slots()[self.free()[k] as int].instance is None by {
                        assert(self.free()[k] == old(self).free()[k]);
                    }
                    assert forall|i: int| 0 <= i < self.slots().len() implies (
                    #[trigger] self.slots()[i]).generation >= 1 by {
                        assert(old(self).slots()[i].generation >= 1);
                    }
                }
                ObjectHandle { index, generation }
            },
            None => {
                let index: u32 = self.objects.len() as u32;
                self.objects.push(TileObjectEntry { generation: 1, instance: Some(inst) });
                proof {
                    assert forall|i: int|
                        0 <= i < self.slots().len() && (#[trigger] self.slots()[i]).instance is None implies self.free().contains(
                        i as u32,
                    ) by {
                        assert(old(self).slots()[i].instance is None);
                    }
                    assert forall|i: int| 0 <= i < self.slots().len() implies (
                    #[trigger] self.slots()[i]).generation >= 1 by {
                        if i < old(self).slots().len() {
                            assert(old(self).slots()[i].generation >= 1);
                        }
                    }
                }
                ObjectHandle { index, generation: 1 }
            },
        };
        let ghost tabled = *self;
        assert(forall|t: GridCoord| #[trigger] tabled.slot_at(t) == old(self).slot_at(t));
        assert(forall|c: GridCoord| #[trigger] tabled.is_dirty(c) == old(self).is_dirty(c));
        assert forall|h: ObjectHandle| h != handle implies self.lookup(h) == old(self).lookup(h) by {
            if h.index == handle.index && h.index < old(self).slots().len() {
                assert(old(self).slots()[h.index as int].instance is None);
            }
        }
        self.stamp(inst.origin_tile, inst.size_tiles, handle.index, true);
        proof {
            let index = handle.index as int;
            assert forall|c: GridCoord| #[trigger]
                self.is_dirty(c) == (old(self).is_dirty(c) || reaches(
                    inst.origin_tile,
                    inst.size_tiles,
                    c,
                    old(self).chunk_size() as int,
                )) by {
                assert(tabled.chunk_size() == old(self).chunk_size());
            }
            assert forall|i: int| 0 <= i < self.slots().len() implies match (
            #[trigger] self.slots()[i]).instance {
                Some(other) => size_ok(other.size_tiles) && fits(
                    other.origin_tile,
                    other.size_tiles,
                ),
                None => true,
            } by {
                if i != index {
                    assert(self.slots()[i] == old(self).slots()[i]);
                }
            }
            assert forall|t: GridCoord| #[trigger] self.tile_in_order(t) by {
                if !covers(inst, t) {
                    assert(self.slot_at(t) == tabled.slot_at(t));
                    assert(old(self).tile_in_order(t));
                }
            }
            assert forall|at: int, t: GridCoord| #[trigger]
                self.holds(at, t) implies self.owner(t) == Some(at as u32) by {
                if at != index {
                    assert(old(self).holds(at, t));
                    assert(old(self).owner(t) == Some(at as u32));
                    assert(old(self).slot_at(t).owner() is Some);
                }
            }
        }
        Ok(handle)
    }

    /// Places an object of the given type with the footprint of its type
    /// from `origin_tile` on: `tried` says how it ends. The type must be
    /// registered and its footprint of a size that can be placed.
    pub fn try_place(
        &mut self,
        types: &ObjectTypeRegistry,
        type_id: ObjectTypeId,
        origin_tile: GridCoord,
    ) -> (r: Result<ObjectHandle, PlaceError>)
        requires
            old(self).wf(),
            !old(self).full(),
            types.lookup(type_id) matches Some(spec) ==> (size_ok(spec.footprint_tiles) ==> fits(
                origin_tile,
                spec.footprint_tiles,
            )),
        ensures
            final(self).wf(),
            final(self).tried(
                *old(self),
                types.lookup(type_id) matches Some(spec) && size_ok(spec.footprint_tiles),
                ObjectInstance {
                    type_id,
                    origin_tile,
                    size_tiles: types.lookup(type_id).unwrap().footprint_tiles,
                    center_world: WorldOffset {
                        x: (origin_tile.x * UNITS_PER_WORLD_UNIT + UNITS_PER_WORLD_UNIT / 2) as i64,
                        y: 0,
                        z: (origin_tile.z * UNITS_PER_WORLD_UNIT + UNITS_PER_WORLD_UNIT / 2) as i64,
                    },
                    yaw: 0,
                },
                r,
            ),
    {
        let size_tiles: GridCoord = match types.get(type_id) {
            Some(spec) => spec.footprint_tiles,
            None => {
                return Err(PlaceError::InvalidFootprint);
            },
        };
        if size_tiles.x <= 0 || size_tiles.z <= 0 || size_tiles.x > MAX_FOOTPRINT_TILES
            || size_tiles.z > MAX_FOOTPRINT_TILES {
            return Err(PlaceError::InvalidFootprint);
        }
        let center_world: WorldOffset = WorldOffset {
            x: origin_tile.x as i64 * 1000 + 500,
            y: 0,
            z: origin_tile.z as i64 * 1000 + 500,
        };
        self.place_instance(
            ObjectInstance { type_id, origin_tile, size_tiles, center_world, yaw: 0 },
        )
    }

    /// Places an object of the given type that, turned by `yaw` about
    /// `center_world`, takes up the `size_tiles` tiles from `origin_tile` on:
    /// `tried` says how it ends. The type must be registered with a footprint
    /// of at least one tile, and the tiles taken up of a size that can be
    /// placed.
    pub fn try_place_freeform(
        &mut self,
        types: &ObjectTypeRegistry,
        type_id: ObjectTypeId,
        origin_tile: GridCoord,
        size_tiles: GridCoord,
        center_world: WorldOffset,
        yaw: i32,
    ) -> (r: Result<ObjectHandle, PlaceError>)
        requires
            old(self).wf(),
            !old(self).full(),
            size_ok(size_tiles) ==> fits(origin_tile, size_tiles),
        ensures
            final(self).wf(),
            final(self).tried(
                *old(self),
                types.lookup(type_id) matches Some(spec) && spec.footprint_tiles.x > 0
                    && spec.footprint_tiles.z > 0 && size_ok(size_tiles),
                ObjectInstance { type_id, origin_tile, size_tiles, center_world, yaw },
                r,
            ),
    {
        match types.get(type_id) {
            Some(spec) => {
                if spec.footprint_tiles.x <= 0 || spec.footprint_tiles.z <= 0 {
                    return Err(PlaceError::InvalidFootprint);
                }
            },
            None => {
                return Err(PlaceError::InvalidFootprint);
            },
        }
        if size_tiles.x <= 0 || size_tiles.z <= 0 || size_tiles.x > MAX_FOOTPRINT_TILES
            || size_tiles.z > MAX_FOOTPRINT_TILES {
            return Err(PlaceError::InvalidFootprint);
        }
        self.place_instance(ObjectInstance { type_id, origin_tile, size_tiles, center_world, yaw })
    }

    /// Removes the object that a handle names and frees its tiles: `removed`
    /// says what changes and what is returned.
    pub fn remove(&mut self, handle: ObjectHandle) -> (r: Option<ObjectHandle>)
        requires
            old(self).wf(),
        ensures
            final(self).wf(),
            final(self).removed(*old(self), handle, r),
    {
        let i: usize = handle.index as usize;
        if i >= self.objects.len() {
            return None;
        }
        let slot: TileObjectEntry = self.objects[i];
        if slot.generation != handle.generation {
            return None;
        }
        let inst: ObjectInstance = match slot.instance {
            Some(inst) => inst,
            None => {
                return None;
            },
        };
        proof {
            assert(old(self).slots()[i as int].instance == Some(inst));
            assert forall|t: GridCoord|
                in_rect(inst.origin_tile, inst.size_tiles, t) implies (
            #[trigger] old(self).slot_at(t)).owner() == Some(handle.index) by {
                assert(old(self).holds(i as int, t));
            }
            if old(self).free().contains(handle.index) {
                let k = choose|k: int|
                    0 <= k < old(self).free().len() && old(self).free()[k] == handle.index;
                assert(old(self).slots()[old(self).free()[k] as int].instance is None);
            }
        }
        self.stamp(inst.origin_tile, inst.size_tiles, handle.index, false);
        let generation: u32 = if slot.generation == u32::MAX {
            1
        } else {
            slot.generation + 1
        };
        let ghost freed = *self;
        self.objects.set(i, TileObjectEntry { generation, instance: None });
        self.free_list.push(handle.index);
        proof {
            assert(forall|t: GridCoord| #[trigger] self.slot_at(t) == freed.slot_at(t));
            assert(forall|c: GridCoord| #[trigger] self.is_dirty(c) == freed.is_dirty(c));
            assert forall|h: ObjectHandle| h != handle implies self.lookup(h) == old(self).lookup(
                h,
            ) by {}
            assert forall|a: int, b: int|
                0 <= a < self.free().len() && 0 <= b < self.free().len() && a != b implies self.free()[a]
                != self.free()[b] by {
                if a < old(self).free().len() {
                    assert(old(self).free().contains(old(self).free()[a]));
                }
                if b < old(self).free().len() {
                    assert(old(self).free().contains(old(self).free()[b]));
                }
            }
            assert forall|j: int|
                0 <= j < self.slots().len() && (#[trigger] self.slots()[j]).instance is None implies self.free().contains(
                j as u32,
            ) by {
                if j == i {
                    assert(self.free()[self.free().len() - 1] == handle.index);
                } else {
                    assert(old(self).slots()[j].instance is None);
                    let k = choose|k: int|
                        0 <= k < old(self).free().len() && old(self).free()[k] == j as u32;
                    assert(self.free()[k] == j as u32);
                }
            }
            assert forall|k: int| 0 <= k < self.free().len() implies (#[trigger] self.free()[k])
                < self.slots().len() && self.slots()[self.free()[k] as int].instance is None by {
                if k < old(self).free().len() {
                    assert(self.free()[k] == old(self).free()[k]);
                }
            }
            assert forall|j: int| 0 <= j < self.slots().len() implies (
            #[trigger] self.slots()[j]).generation >= 1 by {
                if j != i {
                    assert(old(self).slots()[j].generation >= 1);
                }
            }
            assert forall|j: int| 0 <= j < self.slots().len() implies match (
            #[trigger] self.slots()[j]).instance {
                Some(other) => size_ok(other.size_tiles) && fits(
                    other.origin_tile,
                    other.size_tiles,
                ),
                None => true,
            } by {
                if j != i {
                    assert(self.slots()[j] == old(self).slots()[j]);
                }
            }
            assert forall|t: GridCoord| #[trigger] self.tile_in_order(t) by {
                assert(self.slot_at(t) == freed.slot_at(t));
                assert(old(self).tile_in_order(t));
                if !covers(inst, t) && self.slot_at(t).owner() is Some {
                    let at = self.slot_at(t).owner().unwrap();
                    assert(old(self).holds(at as int, t));
                }
            }
            assert forall|at: int, t: GridCoord| #[trigger]
                self.holds(at, t) implies self.owner(t) == Some(at as u32) by {
                assert(old(self).holds(at, t));
                assert(old(self).owner(t) == Some(at as u32));
                if covers(inst, t) {
                    assert(old(self).holds(i as int, t));
                }
            }
        }
        Some(handle)
    }

    /// Removes the object on a tile, if one is, and returns its handle.
    pub fn remove_at_tile(&mut self, tile: GridCoord) -> (r: Option<ObjectHandle>)
        requires
            old(self).wf(),
        ensures
            final(self).wf(),
            r == old(self).handle_at(tile),
            match old(self).handle_at(tile) {
                Some(handle) => final(self).removed(*old(self), handle, r),
                None => *final(self) == *old(self),
            },
    {
        match self.object_at_tile(tile) {
            Some(handle) => self.remove(handle),
            None => None,
        }
    }

    pub fn chunk_is_dirty(&self, chunk_coord: GridCoord) -> (b: bool)
        ensures
            b == self.is_dirty(chunk_coord),
    {
        let key: u64 = chunk_coord.to_key();
        match self.chunks.get(&key) {
            Some(c) => c.dirty,
            None => false,
        }
    }

    /// Marks a chunk as taken over by the host.
    pub fn mark_chunk_clean(&mut self, chunk_coord: GridCoord)
        requires
            old(self).wf(),
        ensures
            final(self).wf(),
            !final(self).is_dirty(chunk_coord),
            forall|c: GridCoord| c != chunk_coord ==> final(self).is_dirty(c) == old(self).is_dirty(c),
            forall|t: GridCoord| #[trigger] final(self).slot_at(t) == old(self).slot_at(t),
            final(self).slots() == old(self).slots(),
            final(self).free() == old(self).free(),
            final(self).chunk_size() == old(self).chunk_size(),
    {
        let key: u64 = chunk_coord.to_key();
        match self.chunks.remove(&key) {
            Some(c) => {
                self.chunks.insert(key, ObjectChunk { tiles: c.tiles, dirty: false });
            },
            None => {},
        }
        proof {
            assert forall|c: GridCoord| #[trigger]
                self.chunks@.contains_key(c.key()) implies self.chunks@[c.key()].tiles@.len()
                == self.chunk_size * self.chunk_size by {
                if c.key() == chunk_coord.key() {
                    GridCoord::lemma_key_injective(c, chunk_coord);
                }
                assert(old(self).chunks@.contains_key(c.key()));
            }
            assert forall|c: GridCoord| c != chunk_coord implies self.is_dirty(c) == old(self).is_dirty(c) by {
                if c.key() == chunk_coord.key() {
                    GridCoord::lemma_key_injective(c, chunk_coord);
                }
            }
            assert forall|t: GridCoord| #[trigger] self.slot_at(t) == old(self).slot_at(t) by {
                let c = tile_chunk(t, self.chunk_size as int);
                if c.key() == chunk_coord.key() {
                    GridCoord::lemma_key_injective(c, chunk_coord);
                }
            }
            assert forall|t: GridCoord| #[trigger] self.tile_in_order(t) by {
                assert(old(self).tile_in_order(t));
            }
            assert forall|at: int, t: GridCoord| #[trigger]
                self.holds(at, t) implies self.owner(t) == Some(at as u32) by {
                assert(old(self).holds(at, t));
            }
        }
    }

    /// The tiles of a chunk, row by row; none for a chunk that was not made
    /// yet.
    pub closed spec fn chunk_tiles(&self, chunk: GridCoord) -> Seq<TileObjectSlot> {
        if self.chunks@.contains_key(chunk.key()) {
            self.chunks@[chunk.key()].tiles@
        } else {
            Seq::empty()
        }
    }

    /// The handle of the object whose footprint has its origin on a tile that
    /// knows `slot`.
    pub open spec fn origin_handle(&self, slot: TileObjectSlot) -> Option<ObjectHandle> {
        match slot.owner() {
            Some(index) => if slot.flags as int % 2 == 1 && index < self.slots().len()
                && self.slots()[index as int].instance is Some {
                Some(ObjectHandle { index, generation: self.slots()[index as int].generation })
            } else {
                None
            },
            None => None,
        }
    }

    /// The handles of the objects that have their origin on one of the first
    /// `n` of the tiles, in the order of the tiles.
    pub open spec fn origins(&self, tiles: Seq<TileObjectSlot>, n: nat) -> Seq<ObjectHandle>
        decreases n,
    {
        if n == 0 {
            Seq::empty()
        } else {
            match self.origin_handle(tiles[n - 1]) {
                Some(h) => self.origins(tiles, (n - 1) as nat).push(h),
                None => self.origins(tiles, (n - 1) as nat),
            }
        }
    }

    /// The tiles of a chunk are what its tiles know: a tile stands in the
    /// list of its chunk at its place, `tile_local`; and a tile of a chunk
    /// that was not made yet is free.
    pub proof fn lemma_chunk_tiles(&self, t: GridCoord)
        requires
            self.wf(),
        ensures
            ({
                let tiles = self.chunk_tiles(tile_chunk(t, self.chunk_size() as int));
                if tiles.len() == 0 {
                    self.slot_at(t) == empty_slot()
                } else {
                    tiles.len() == self.chunk_size() * self.chunk_size() && tiles[tile_local(
                        t,
                        self.chunk_size() as int,
                    )] == self.slot_at(t)
                }
            }),
    {
        let c = tile_chunk(t, self.chunk_size as int);
        lemma_tile_split(t, t, self.chunk_size as int);
        assert(self.chunks@.contains_key(c.key()) ==> self.chunks@[c.key()].tiles@.len()
            == self.chunk_size * self.chunk_size);
        assert(self.chunk_size * self.chunk_size >= 1) by (nonlinear_arith)
            requires
                self.chunk_size >= 1,
        ;
    }

    /// A tile is the origin of an object exactly if the object on it has its
    /// origin there.
    pub proof fn lemma_origin_tiles(&self, t: GridCoord)
        requires
            self.wf(),
        ensures
            self.origin_handle(self.slot_at(t)) == match self.handle_at(t) {
                Some(h) => if self.lookup(h).unwrap().origin_tile == t {
                    Some(h)
                } else {
                    None
                },
                None => None,
            },
    {
        assert(self.tile_in_order(t));
    }

    /// The handles of the objects that have their origin in a chunk, in the
    /// order of the chunk's tiles.
    pub fn iter_origin_objects_in_chunk(&self, chunk_coord: GridCoord) -> (list: Vec<ObjectHandle>)
        ensures
            list@ == self.origins(
                self.chunk_tiles(chunk_coord),
                self.chunk_tiles(chunk_coord).len(),
            ),
    {
        let key: u64 = chunk_coord.to_key();
        let mut list: Vec<ObjectHandle> = Vec::new();
        match self.chunks.get(&key) {
            Some(c) => {
                let mut i: usize = 0;
                while i < c.tiles.len()
                    invariant
                        0 <= i <= c.tiles@.len(),
                        list@ == self.origins(c.tiles@, i as nat),
                    decreases c.tiles@.len() - i,
                {
                    let slot: TileObjectSlot = c.tiles[i];
                    if !slot.is_empty() && slot.is_origin() {
                        match slot.object_index() {
                            Some(index) => {
                                if (index as usize) < self.objects.len() {
                                    let entry: TileObjectEntry = self.objects[index as usize];
                                    if entry.instance.is_some() {
                                        list.push(
                                            ObjectHandle { index, generation: entry.generation },
                                        );
                                    }
                                }
                            },
                            None => {},
                        }
                    }
                    i = i + 1;
                }
            },
            None => {},
        }
        list
    }
}

} // verus!
