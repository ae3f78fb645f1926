//! The object world: generation-indexed storage of placed objects, indexed by
//! a spatial hash for proximity queries and by chunk for the host's bookkeeping.
//!
//! An object's position is what was given when it was placed. The height of
//! the terrain under it is not kept here: the host samples it whenever it
//! draws the object.

use vstd::prelude::*;
use std::collections::HashSet;
use crate::collision::circles_overlap;
use crate::collision::collision_radius;
use crate::collision::contains_point;
use crate::collision::distance_squared;
use crate::collision::overlaps;
use crate::collision::point_in_circle;
use crate::coords::GridCoord;
use crate::handle::ObjectHandle;
use crate::registry::clamped_radius;
use crate::registry::ObjectTypeId;
use crate::registry::ObjectTypeRegistry;
use crate::spatial::lemma_near_is_candidate;
use crate::spatial::SpatialHashGrid;
use crate::spatial::DEFAULT_CELL_SIZE;
use crate::units::dist_sq;
use crate::units::WorldPos;

verus! {

broadcast use vstd::std_specs::hash::group_hash_axioms;

/// One placed object.
#[derive(Clone, Copy, Debug, PartialEq, Eq, Structural)]
pub struct FreeformObjectInstance {
    pub type_id: ObjectTypeId,
    pub position_world: WorldPos,
    /// Rotation about the up axis, in thousandths of a radian.
    pub yaw: i32,
}

/// One slot of the object table.
#[derive(Clone, Copy, Debug, PartialEq, Eq, Structural)]
pub struct ObjectSlot {
    /// Changes with every removal; never zero.
    pub generation: u32,
    pub instance: Option<FreeformObjectInstance>,
}

/// The generation that follows `g`: one more, wrapping past zero to one.
pub open spec fn next_generation(g: u32) -> u32 {
    if g == u32::MAX {
        1
    } else {
        (g + 1) as u32
    }
}

/// Most slots a world holds: slot indices are thirty-two bits wide.
pub const MAX_OBJECT_SLOTS: usize = 0xffff_ffff;

/// The object world.
pub struct FreeformObjectWorld {
    chunk_world_size: i32,
    objects: Vec<ObjectSlot>,
    free_list: Vec<u32>,
    grid: SpatialHashGrid,
    by_chunk: SpatialHashGrid,
    dirty_chunks: HashSet<u64>,
}

/// Whether an object of type `other_type` at `other_position` is in the way
/// of a circle of the given radius around `position`: its type is registered,
/// and its own circle overlaps that circle.
pub open spec fn blocks(
    types: &ObjectTypeRegistry,
    other_type: ObjectTypeId,
    other_position: WorldPos,
    position: WorldPos,
    radius: int,
) -> bool {
    match types.lookup(other_type) {
        Some(spec) => overlaps(
            position.xz(),
            radius,
            other_position.xz(),
            clamped_radius(spec.hover_radius as int),
        ),
        None => false,
    }
}

/// Placing and then looking up gives back what was placed: its type, its
/// position and its yaw.
pub proof fn lemma_place_then_get(
    before: FreeformObjectWorld,
    after: FreeformObjectWorld,
    inst: FreeformObjectInstance,
    handle: ObjectHandle,
)
    requires
        after.placed(before, inst, handle),
    ensures
        after.is_live(handle),
        after.lookup(handle) == Some(inst),
{
}

/// Removing twice by one handle: the second removal returns `None` and
/// changes nothing, and neither touches another slot.
pub proof fn lemma_remove_twice(
    w0: FreeformObjectWorld,
    w1: FreeformObjectWorld,
    w2: FreeformObjectWorld,
    handle: ObjectHandle,
    r1: Option<ObjectHandle>,
    r2: Option<ObjectHandle>,
)
    requires
        w1.removed(w0, handle, r1),
        w2.removed(w1, handle, r2),
    ensures
        r2 is None,
        w2 == w1,
        w1.slots().len() == w0.slots().len(),
        forall|i: int|
            0 <= i < w0.slots().len() && i != handle.index ==> w2.slots()[i] == w0.slots()[i],
{
}

/// Whether an object of type `new_type` may go at `position_world` among the
/// objects listed in `existing`: its type is registered, and its circle
/// overlaps the circle of none of them. A listed object whose type is not
/// registered is in nobody's way.
pub fn can_place_non_overlapping(
    types: &ObjectTypeRegistry,
    new_type: ObjectTypeId,
    position_world: WorldPos,
    existing: &Vec<(ObjectTypeId, WorldPos)>,
) -> (ok: bool)
    ensures
        ok == match types.lookup(new_type) {
            Some(spec) => forall|i: int|
                0 <= i < existing@.len() ==> !blocks(
                    types,
                    (#[trigger] existing@[i]).0,
                    existing@[i].1,
                    position_world,
                    clamped_radius(spec.hover_radius as int),
                ),
            None => false,
        },
{
    let new_r: i32 = match types.get(new_type) {
        Some(spec) => collision_radius(spec.hover_radius),
        None => {
            return false;
        },
    };
    let mut i: usize = 0;
    while i < existing.len()
        invariant
            0 <= i <= existing@.len(),
            types.lookup(new_type) matches Some(spec) && new_r == clamped_radius(
                spec.hover_radius as int,
            ),
            forall|j: int|
                0 <= j < i ==> !blocks(
                    types,
                    (#[trigger] existing@[j]).0,
                    existing@[j].1,
                    position_world,
                    new_r as int,
                ),
        decreases existing@.len() - i,
    {
        let other_type: ObjectTypeId = existing[i].0;
        let other_position: WorldPos = existing[i].1;
        match types.get(other_type) {
            Some(spec) => {
                let other_r: i32 = collision_radius(spec.hover_radius);
                if circles_overlap(position_world, new_r, other_position, other_r) {
                    assert(blocks(
                        types,
                        existing@[i as int].0,
                        existing@[i as int].1,
                        position_world,
                        new_r as int,
                    ));
                    return false;
                }
            },
            None => {},
        }
        i = i + 1;
    }
    true
}

/// Whether an object of type `new_type` may go at `position_world` in the
/// world: `FreeformObjectWorld::placeable` says when.
pub fn can_place_non_overlapping_spatial(
    types: &ObjectTypeRegistry,
    new_type: ObjectTypeId,
    position_world: WorldPos,
    world: &FreeformObjectWorld,
) -> (ok: bool)
    requires
        world.wf(),
    ensures
        ok == world.placeable(types, new_type, position_world),
{
    let new_r: i32 = match types.get(new_type) {
        Some(spec) => collision_radius(spec.hover_radius),
        None => {
            return false;
        },
    };
    let candidates: Vec<ObjectHandle> = world.grid.query_candidates(position_world.xz(), new_r);
    let mut i: usize = 0;
    while i < candidates.len()
        invariant
            0 <= i <= candidates@.len(),
            types.lookup(new_type) matches Some(spec) && new_r == clamped_radius(
                spec.hover_radius as int,
            ),
            forall|h: ObjectHandle| #[trigger]
                candidates@.contains(h) <==> world.grid_spec().is_candidate(
                    h,
                    position_world.xz(),
                    new_r as int,
                ),
            forall|j: int|
                0 <= j < i ==> !world.in_the_way(
                    types,
                    #[trigger] candidates@[j],
                    position_world,
                    new_r as int,
                ),
        decreases candidates@.len() - i,
    {
        let h: ObjectHandle = candidates[i];
        match world.get(h) {
            Some(inst) => {
                match types.get(inst.type_id) {
                    Some(spec) => {
                        let other_r: i32 = collision_radius(spec.hover_radius);
                        if circles_overlap(position_world, new_r, inst.position_world, other_r) {
                            proof {
                                assert(candidates@.contains(candidates@[i as int]));
                                assert(world.grid_spec().is_candidate(
                                    h,
                                    position_world.xz(),
                                    new_r as int,
                                ));
                                assert(world.in_the_way(types, h, position_world, new_r as int));
                            }
                            return false;
                        }
                    },
                    None => {},
                }
            },
            None => {},
        }
        i = i + 1;
    }
    proof {
        assert forall|h: ObjectHandle|
            world.grid_spec().is_candidate(h, position_world.xz(), new_r as int)
                implies !#[trigger] world.in_the_way(types, h, position_world, new_r as int) by {
            assert(candidates@.contains(h));
            let j = choose|j: int| 0 <= j < candidates@.len() && candidates@[j] == h;
            assert(!world.in_the_way(types, candidates@[j], position_world, new_r as int));
        }
    }
    true
}

impl FreeformObjectWorld {
    /// The slots, by index.
    pub closed spec fn slots(&self) -> Seq<ObjectSlot> {
        self.objects@
    }

    /// The freed slot indices, the one to be reused next last.
    pub closed spec fn free(&self) -> Seq<u32> {
        self.free_list@
    }

    /// The spatial hash over the placed objects.
    pub closed spec fn grid_spec(&self) -> SpatialHashGrid {
        self.grid
    }

    /// The index of the placed objects by chunk: a grid whose cells are the
    /// chunks.
    pub closed spec fn chunk_index(&self) -> SpatialHashGrid {
        self.by_chunk
    }

    /// Whether something was placed in the chunk, or removed from it, since it
    /// was last marked clean.
    pub closed spec fn is_dirty(&self, chunk: GridCoord) -> bool {
        self.dirty_chunks@.contains(chunk.key())
    }

    /// What a handle names: the object in its slot, if the slot exists, is of
    /// the handle's generation and is taken.
    pub open spec fn lookup(&self, h: ObjectHandle) -> Option<FreeformObjectInstance> {
        if h.index < self.slots().len() && self.slots()[h.index as int].generation
            == h.generation {
            self.slots()[h.index as int].instance
        } else {
            None
        }
    }

    /// A handle is valid while it names an object.
    pub open spec fn is_live(&self, h: ObjectHandle) -> bool {
        self.lookup(h) is Some
    }

    /// The cell of a grid in which a handle belongs: that of its object's
    /// position; none if it names no object.
    pub open spec fn home(&self, grid: SpatialHashGrid, h: ObjectHandle) -> Option<GridCoord> {
        match self.lookup(h) {
            Some(inst) => Some(
                grid.cell_of_world_spec(
                    inst.position_world.xz(),
                ),
            ),
            None => None,
        }
    }

    /// The free list names exactly the empty slots, each once; no generation
    /// is zero; and both grids index exactly the valid handles, each in the
    /// cell of its object's position.
    pub open spec fn wf(&self) -> bool {
        &&& self.slots().len() <= MAX_OBJECT_SLOTS
        &&& self.free().no_duplicates()
        &&& forall|k: int|
            0 <= k < self.free().len() ==> (#[trigger] self.free()[k]) < self.slots().len()
                && self.slots()[self.free()[k] as int].instance is None
        &&& forall|i: int|
            0 <= i < self.slots().len() && (#[trigger] self.slots()[i]).instance is None
                ==> self.free().contains(i as u32)
        &&& forall|i: int| 0 <= i < self.slots().len() ==> (#[trigger] self.slots()[i]).generation >= 1
        &&& self.grid_spec().wf()
        &&& self.chunk_index().wf()
        &&& forall|h: ObjectHandle| #[trigger]
            self.grid_spec().cell_of(h) == self.home(self.grid_spec(), h)
        &&& forall|h: ObjectHandle| #[trigger]
            self.chunk_index().cell_of(h) == self.home(self.chunk_index(), h)
    }

    /// No slot is left to place an object in.
    pub open spec fn full(&self) -> bool {
        self.free().len() == 0 && self.slots().len() == MAX_OBJECT_SLOTS
    }

    /// The handle that the next placement returns: a freed slot under its
    /// present generation, or a new slot under generation one.
    pub open spec fn next_handle(&self) -> ObjectHandle {
        if self.free().len() > 0 {
            ObjectHandle {
                index: self.free().last(),
                generation: self.slots()[self.free().last() as int].generation,
            }
        } else {
            ObjectHandle { index: self.slots().len() as u32, generation: 1 }
        }
    }

    /// The edge of a chunk of `chunk_size` tiles of `tile_size` units each;
    /// either is taken as one if it is less.
    pub open spec fn chunk_edge(chunk_size: i32, tile_size: i32) -> int {
        let n = if chunk_size >= 1 {
            chunk_size as int
        } else {
            1
        };
        let t = if tile_size >= 1 {
            tile_size as int
        } else {
            1
        };
        n * t
    }

    /// Whether the edge of such a chunk is a coordinate, as a world needs it.
    pub fn chunk_edge_fits(chunk_size: i32, tile_size: i32) -> (b: bool)
        ensures
            b == (Self::chunk_edge(chunk_size, tile_size) <= i32::MAX),
    {
        let n: i64 = if chunk_size >= 1 {
            chunk_size as i64
        } else {
            1
        };
        let t: i64 = if tile_size >= 1 {
            tile_size as i64
        } else {
            1
        };
        assert(1 <= n * t <= 0x8000_0000 * 0x8000_0000) by (nonlinear_arith)
            requires
                1 <= n <= 0x8000_0000,
                1 <= t <= 0x8000_0000,
        ;
        n * t <= i32::MAX as i64
    }

    /// An empty world over chunks of the given size, whose edge must be a
    /// coordinate.
    pub fn new(chunk_size: i32, tile_size: i32) -> (w: FreeformObjectWorld)
        requires
            Self::chunk_edge(chunk_size, tile_size) <= i32::MAX,
        ensures
            w.wf(),
            w.slots().len() == 0,
            w.free().len() == 0,
            w.grid_spec().cell_size() == DEFAULT_CELL_SIZE,
            w.chunk_index().cell_size() == Self::chunk_edge(chunk_size, tile_size),
            forall|c: GridCoord| !w.is_dirty(c),
    {
        let n: i32 = if chunk_size >= 1 {
            chunk_size
        } else {
            1
        };
        let t: i32 = if tile_size >= 1 {
            tile_size
        } else {
            1
        };
        assert(1 <= n * t) by (nonlinear_arith)
            requires
                1 <= n,
                1 <= t,
        ;
        let edge: i32 = n * t;
        FreeformObjectWorld {
            chunk_world_size: edge,
            objects: Vec::new(),
            free_list: Vec::new(),
            grid: SpatialHashGrid::new(DEFAULT_CELL_SIZE),
            by_chunk: SpatialHashGrid::new(edge),
            dirty_chunks: HashSet::new(),
        }
    }

    pub fn is_full(&self) -> (b: bool)
        ensures
            b == self.full(),
    {
        self.free_list.len() == 0 && self.objects.len() == MAX_OBJECT_SLOTS
    }

    /// The spatial hash over the placed objects.
    pub fn grid(&self) -> (g: &SpatialHashGrid)
        ensures
            *g == self.grid_spec(),
    {
        &self.grid
    }

    /// The chunk that a position falls in.
    pub fn chunk_of(&self, position_world: WorldPos) -> (c: GridCoord)
        ensures
            c == self.chunk_index().cell_of_world_spec(
                position_world.xz(),
            ),
    {
        self.by_chunk.cell_of_world(position_world.xz())
    }

    pub fn chunk_is_dirty(&self, chunk_coord: GridCoord) -> (b: bool)
        ensures
            b == self.is_dirty(chunk_coord),
    {
        let key: u64 = chunk_coord.to_key();
        self.dirty_chunks.contains(&key)
    }

    pub fn mark_chunk_clean(&mut self, chunk_coord: GridCoord)
        ensures
            !final(self).is_dirty(chunk_coord),
            forall|c: GridCoord| c != chunk_coord ==> final(self).is_dirty(c) == old(self).is_dirty(c),
            final(self).slots() == old(self).slots(),
            final(self).free() == old(self).free(),
            final(self).grid_spec() == old(self).grid_spec(),
            final(self).chunk_index() == old(self).chunk_index(),
    {
        let key: u64 = chunk_coord.to_key();
        self.dirty_chunks.remove(&key);
        assert forall|c: GridCoord| c != chunk_coord implies self.is_dirty(c) == old(self).is_dirty(
            c,
        ) by {
            if c.key() == chunk_coord.key() {
                GridCoord::lemma_key_injective(c, chunk_coord);
            }
        }
    }

    /// The object that a handle names, if it names one.
    pub fn get(&self, handle: ObjectHandle) -> (r: Option<&FreeformObjectInstance>)
        ensures
            match r {
                Some(inst) => self.lookup(handle) == Some(*inst),
                None => self.lookup(handle) is None,
            },
    {
        let i: usize = handle.index as usize;
        if i >= self.objects.len() {
            return None;
        }
        if self.objects[i].generation != handle.generation {
            return None;
        }
        self.objects[i].instance.as_ref()
    }

    /// The handles of the objects placed in a chunk, in the order they
    /// entered it.
    pub fn iter_objects_in_chunk(&self, chunk_coord: GridCoord) -> (list: Vec<ObjectHandle>)
        ensures
            list@ == self.chunk_index().members(chunk_coord),
    {
        self.by_chunk.cell_members(chunk_coord)
    }

    /// The chunks that are dirty after an object was placed in `chunk` or
    /// removed from it: that one, and those that were.
    pub open spec fn dirtied(&self, before: FreeformObjectWorld, chunk: GridCoord) -> bool {
        forall|c: GridCoord| #[trigger] self.is_dirty(c) == (c == chunk || before.is_dirty(c))
    }

    /// What placing `inst` does to a world, `before` against `self` after:
    /// the handle returned is `next_handle()`, which named nothing; now it
    /// names the object, and every other handle names what it did. The object
    /// went into the freed slot named last in the free list, or into a new
    /// slot at the end. Both grids list the handle last in the cell of the
    /// object's position. Its chunk is dirty.
    pub open spec fn placed(
        &self,
        before: FreeformObjectWorld,
        inst: FreeformObjectInstance,
        handle: ObjectHandle,
    ) -> bool {
        &&& handle == before.next_handle()
        &&& !before.is_live(handle)
        &&& self.lookup(handle) == Some(inst)
        &&& forall|h: ObjectHandle| h != handle ==> self.lookup(h) == before.lookup(h)
        &&& before.free().len() > 0 ==> self.free() == before.free().drop_last() && self.slots()
            == before.slots().update(
            handle.index as int,
            ObjectSlot { generation: handle.generation, instance: Some(inst) },
        )
        &&& before.free().len() == 0 ==> self.free() == before.free() && self.slots()
            == before.slots().push(ObjectSlot { generation: 1, instance: Some(inst) })
        &&& self.grid_spec().cell_size() == before.grid_spec().cell_size()
        &&& self.chunk_index().cell_size() == before.chunk_index().cell_size()
        &&& forall|c: GridCoord| #[trigger]
            self.grid_spec().members(c) == before.grid_spec().members_after_move(
                c,
                handle,
                before.grid_spec().cell_of_world_spec(inst.position_world.xz()),
            )
        &&& forall|c: GridCoord| #[trigger]
            self.chunk_index().members(c) == before.chunk_index().members_after_move(
                c,
                handle,
                before.chunk_index().cell_of_world_spec(inst.position_world.xz()),
            )
        &&& self.dirtied(before, before.chunk_index().cell_of_world_spec(inst.position_world.xz()))
    }

    /// What removing by `handle` does to a world, `before` against `self`
    /// after, and what it returns. If the handle named an object: the handle
    /// is returned; its slot is empty and of the next generation, so that the
    /// handle names nothing any more; the slot's index is last in the free
    /// list; neither grid lists the handle; the object's chunk is dirty; every
    /// other handle names what it did. If it named none: `None` is returned
    /// and nothing has changed.
    pub open spec fn removed(
        &self,
        before: FreeformObjectWorld,
        handle: ObjectHandle,
        r: Option<ObjectHandle>,
    ) -> bool {
        &&& r == if before.is_live(handle) {
            Some(handle)
        } else {
            None
        }
        &&& !self.is_live(handle)
        &&& forall|h: ObjectHandle| h != handle ==> self.lookup(h) == before.lookup(h)
        &&& !before.is_live(handle) ==> *self == before
        &&& before.is_live(handle) ==> {
            &&& self.slots() == before.slots().update(
                handle.index as int,
                ObjectSlot { generation: next_generation(handle.generation), instance: None },
            )
            &&& self.free() == before.free().push(handle.index)
            &&& self.dirtied(before, before.home(before.chunk_index(), handle).unwrap())
        }
        &&& self.grid_spec().cell_size() == before.grid_spec().cell_size()
        &&& self.chunk_index().cell_size() == before.chunk_index().cell_size()
        &&& forall|c: GridCoord| #[trigger]
            self.grid_spec().members(c) == before.grid_spec().members_after_removal(c, handle)
        &&& forall|c: GridCoord| #[trigger]
            self.chunk_index().members(c) == before.chunk_index().members_after_removal(c, handle)
    }

    /// Places an object and returns its handle: `placed` says what changes.
    /// Both grids index the object at its position from now on, last in its
    /// cell's list.
    pub fn place(&mut self, type_id: ObjectTypeId, position_world: WorldPos, yaw: i32) -> (handle:
        ObjectHandle)
        requires
            old(self).wf(),
            !old(self).full(),
        ensures
            final(self).wf(),
            final(self).placed(
                *old(self),
                FreeformObjectInstance { type_id, position_world, yaw },
                handle,
            ),
    {
        let inst: FreeformObjectInstance = FreeformObjectInstance { type_id, position_world, yaw };
        let handle: ObjectHandle = match self.free_list.pop() {
            Some(index) => {
                proof {
                    let k = old(self).free().len() - 1;
                    assert(old(self).free()[k] == index);
                    assert forall|j: int| 0 <= j < self.free_list@.len() implies self.free_list@[j]
                        != index by {
                        assert(self.free_list@[j] == old(self).free()[j]);
                    }
                }
                let generation: u32 = self.objects[index as usize].generation;
                self.objects.set(index as usize, ObjectSlot { generation, instance: Some(inst) });
                proof {
                    assert forall|i: int|
                        0 <= i < self.slots().len() && (#[trigger] self.slots()[i]).instance is None implies self.free().contains(
                        i as u32,
                    ) by {
                        assert(old(self).slots()[i].instance is None);
                        let k = choose|k: int|
                            0 <= k < old(self).free().len() && old(self).free()[k] == i as u32;
                        assert(self.free()[k] == i as u32);
                    }
                    assert forall|k: int| 0 <= k < self.free().len() implies (
                    #[trigger] self.free()[k]) < self.slots().len()
                        && self.slots()[self.free()[k] as int].instance is None by {
                        assert(self.free()[k] == old(self).free()[k]);
                    }
                    assert forall|i: int| 0 <= i < self.slots().len() implies (
                    #[trigger] self.slots()[i]).generation >= 1 by {
                        assert(old(self).slots()[i].generation >= 1);
                    }
                }
                ObjectHandle { index, generation }
            },
            None => {
                let index: u32 = self.objects.len() as u32;
                self.objects.push(ObjectSlot { generation: 1, instance: Some(inst) });
                proof {
                    assert forall|i: int|
                        0 <= i < self.slots().len() && (#[trigger] self.slots()[i]).instance is None implies self.free().contains(
                        i as u32,
                    ) by {
                        assert(old(self).slots()[i].instance is None);
                    }
                    assert forall|i: int| 0 <= i < self.slots().len() implies (
                    #[trigger] self.slots()[i]).generation >= 1 by {
                        if i < old(self).slots().len() {
                            assert(old(self).slots()[i].generation >= 1);
                        }
                    }
                }
                ObjectHandle { index, generation: 1 }
            },
        };
        assert(self.lookup(handle) == Some(inst));
        assert forall|h: ObjectHandle| h != handle implies self.lookup(h) == old(self).lookup(h) by {
            if h.index == handle.index && h.index < old(self).slots().len() {
                assert(old(self).slots()[h.index as int].instance is None);
            }
        }
        self.grid.insert_or_move(handle, position_world);
        self.by_chunk.insert_or_move(handle, position_world);
        let chunk: GridCoord = self.by_chunk.cell_of_world(
            position_world.xz(),
        );
        self.dirty_chunks.insert(chunk.to_key());
        proof {
            assert forall|h: ObjectHandle| #[trigger]
                self.grid_spec().cell_of(h) == self.home(self.grid_spec(), h) by {
                assert(old(self).grid_spec().cell_of(h) == old(self).home(old(self).grid_spec(), h));
            }
            assert forall|h: ObjectHandle| #[trigger]
                self.chunk_index().cell_of(h) == self.home(self.chunk_index(), h) by {
                assert(old(self).chunk_index().cell_of(h) == old(self).home(
                    old(self).chunk_index(),
                    h,
                ));
            }
            assert forall|c: GridCoord| #[trigger]
                self.is_dirty(c) == (c == chunk || old(self).is_dirty(c)) by {
                if c.key() == chunk.key() {
                    GridCoord::lemma_key_injective(c, chunk);
                }
            }
        }
        handle
    }

    /// Removes the object that a handle names: `removed` says what changes
    /// and what is returned. Neither grid indexes the handle from now on.
    pub fn remove(&mut self, handle: ObjectHandle) -> (r: Option<ObjectHandle>)
        requires
            old(self).wf(),
        ensures
            final(self).wf(),
            final(self).removed(*old(self), handle, r),
    {
        let i: usize = handle.index as usize;
        if i >= self.objects.len() {
            return None;
        }
        let slot: ObjectSlot = self.objects[i];
        if slot.generation != handle.generation {
            return None;
        }
        if slot.instance.is_none() {
            return None;
        }
        let generation: u32 = if slot.generation == u32::MAX {
            1
        } else {
            slot.generation + 1
        };
        proof {
            if old(self).free().contains(handle.index) {
                let k = choose|k: int|
                    0 <= k < old(self).free().len() && old(self).free()[k] == handle.index;
                assert(old(self).slots()[old(self).free()[k] as int].instance is None);
            }
        }
        self.objects.set(i, ObjectSlot { generation, instance: None });
        self.free_list.push(handle.index);
        let chunk: Option<GridCoord> = self.by_chunk.cell_of_handle(handle);
        assert(chunk == old(self).home(old(self).chunk_index(), handle)) by {
            assert(old(self).chunk_index().cell_of(handle) == old(self).home(
                old(self).chunk_index(),
                handle,
            ));
        }
        self.grid.remove(handle);
        self.by_chunk.remove(handle);
        match chunk {
            Some(c) => {
                self.dirty_chunks.insert(c.to_key());
                proof {
                    assert forall|d: GridCoord| #[trigger]
                        self.is_dirty(d) == (d == c || old(self).is_dirty(d)) by {
                        if d.key() == c.key() {
                            GridCoord::lemma_key_injective(d, c);
                        }
                    }
                }
            },
            None => {},
        }
        proof {
            assert forall|h: ObjectHandle| h != handle implies self.lookup(h) == old(self).lookup(
                h,
            ) by {}
            assert forall|a: int, b: int|
                0 <= a < self.free().len() && 0 <= b < self.free().len() && a != b implies self.free()[a]
                != self.free()[b] by {
                if a < old(self).free().len() {
                    assert(old(self).free().contains(old(self).free()[a]));
                }
                if b < old(self).free().len() {
                    assert(old(self).free().contains(old(self).free()[b]));
                }
            }
            assert forall|j: int|
                0 <= j < self.slots().len() && (#[trigger] self.slots()[j]).instance is None implies self.free().contains(
                j as u32,
            ) by {
                if j == i {
                    assert(self.free()[self.free().len() - 1] == handle.index);
                } else {
                    assert(old(self).slots()[j].instance is None);
                    let k = choose|k: int|
                        0 <= k < old(self).free().len() && old(self).free()[k] == j as u32;
                    assert(self.free()[k] == j as u32);
                }
            }
            assert forall|k: int| 0 <= k < self.free().len() implies (#[trigger] self.free()[k])
                < self.slots().len() && self.slots()[self.free()[k] as int].instance is None by {
                if k < old(self).free().len() {
                    assert(self.free()[k] == old(self).free()[k]);
                }
            }
            assert forall|j: int| 0 <= j < self.slots().len() implies (
            #[trigger] self.slots()[j]).generation >= 1 by {
                if j != i {
                    assert(old(self).slots()[j].generation >= 1);
                }
            }
            assert forall|h: ObjectHandle| #[trigger]
                self.grid_spec().cell_of(h) == self.home(self.grid_spec(), h) by {
                assert(old(self).grid_spec().cell_of(h) == old(self).home(old(self).grid_spec(), h));
            }
            assert forall|h: ObjectHandle| #[trigger]
                self.chunk_index().cell_of(h) == self.home(self.chunk_index(), h) by {
                assert(old(self).chunk_index().cell_of(h) == old(self).home(
                    old(self).chunk_index(),
                    h,
                ));
            }
        }
        Some(handle)
    }

    /// Whether the object that `h` names is in the way of a circle of the
    /// given radius around `position`.
    pub open spec fn in_the_way(
        &self,
        types: &ObjectTypeRegistry,
        h: ObjectHandle,
        position: WorldPos,
        radius: int,
    ) -> bool {
        match self.lookup(h) {
            Some(inst) => blocks(types, inst.type_id, inst.position_world, position, radius),
            None => false,
        }
    }

    /// Whether an object of type `type_id` may go at `position`: the type is
    /// registered, and of the objects that the grid offers as candidates
    /// within the type's clamped hover radius of the position, none is in the
    /// way.
    pub open spec fn placeable(
        &self,
        types: &ObjectTypeRegistry,
        type_id: ObjectTypeId,
        position: WorldPos,
    ) -> bool {
        match types.lookup(type_id) {
            Some(spec) => forall|h: ObjectHandle|
                self.grid_spec().is_candidate(
                    h,
                    position.xz(),
                    clamped_radius(spec.hover_radius as int),
                ) ==> !#[trigger] self.in_the_way(
                    types,
                    h,
                    position,
                    clamped_radius(spec.hover_radius as int),
                ),
            None => false,
        }
    }

    /// Whether the cursor is over the object that `h` names: the object's
    /// type is registered, and the cursor lies in the object's own circle.
    pub open spec fn hovers(
        &self,
        types: &ObjectTypeRegistry,
        h: ObjectHandle,
        cursor: WorldPos,
    ) -> bool {
        match self.lookup(h) {
            Some(inst) => match types.lookup(inst.type_id) {
                Some(spec) => contains_point(
                    inst.position_world.xz(),
                    clamped_radius(spec.hover_radius as int),
                    cursor.xz(),
                ),
                None => false,
            },
            None => false,
        }
    }

    /// Squared distance from the cursor to the object that `h` names.
    pub open spec fn hover_distance(&self, h: ObjectHandle, cursor: WorldPos) -> int
        recommends
            self.is_live(h),
    {
        dist_sq(self.lookup(h).unwrap().position_world.xz(), cursor.xz())
    }

    /// Whether an object of type `type_id` may go at `position_world`:
    /// `placeable` says when.
    pub fn can_place_non_overlapping(
        &self,
        types: &ObjectTypeRegistry,
        type_id: ObjectTypeId,
        position_world: WorldPos,
    ) -> (ok: bool)
        requires
            self.wf(),
        ensures
            ok == self.placeable(types, type_id, position_world),
    {
        can_place_non_overlapping_spatial(types, type_id, position_world, self)
    }

    /// Whether `r` is a right answer to "what is under the cursor": an object
    /// whose circle holds the cursor and than which none such is nearer to
    /// it; `None` only if no object's circle holds the cursor. Which of
    /// several at the same distance is picked is left open.
    pub open spec fn picked(
        &self,
        types: &ObjectTypeRegistry,
        cursor: WorldPos,
        r: Option<ObjectHandle>,
    ) -> bool {
        match r {
            Some(h) => self.hovers(types, h, cursor) && forall|o: ObjectHandle| #[trigger]
                self.hovers(types, o, cursor) ==> self.hover_distance(h, cursor)
                    <= self.hover_distance(o, cursor),
            None => forall|o: ObjectHandle| !#[trigger] self.hovers(types, o, cursor),
        }
    }

    /// The object under the cursor: `picked` says which. The grid is asked
    /// for candidates within the largest hover radius of any registered type,
    /// so no object whose circle holds the cursor is missed.
    pub fn pick_hovered(&self, types: &ObjectTypeRegistry, cursor_world: WorldPos) -> (r: Option<
        ObjectHandle,
    >)
        requires
            self.wf(),
            types.wf(),
        ensures
            self.picked(types, cursor_world, r),
    {
        let reach: i32 = types.max_hover_radius();
        let candidates: Vec<ObjectHandle> = self.grid.query_candidates(cursor_world.xz(), reach);
        let mut best: Option<(ObjectHandle, i128)> = None;
        let mut i: usize = 0;
        while i < candidates.len()
            invariant
                0 <= i <= candidates@.len(),
                match best {
                    Some((h, d)) => self.hovers(types, h, cursor_world) && d == self.hover_distance(
                        h,
                        cursor_world,
                    ) && forall|j: int|
                        0 <= j < i && self.hovers(types, #[trigger] candidates@[j], cursor_world)
                            ==> d <= self.hover_distance(candidates@[j], cursor_world),
                    None => forall|j: int|
                        0 <= j < i ==> !self.hovers(types, #[trigger] candidates@[j], cursor_world),
                },
            decreases candidates@.len() - i,
        {
            let h: ObjectHandle = candidates[i];
            match self.get(h) {
                Some(inst) => {
                    match types.get(inst.type_id) {
                        Some(spec) => {
                            let radius: i32 = collision_radius(spec.hover_radius);
                            if point_in_circle(cursor_world, inst.position_world, radius) {
                                let d: i128 = distance_squared(inst.position_world, cursor_world);
                                let nearer: bool = match best {
                                    Some((_, b)) => d < b,
                                    None => true,
                                };
                                if nearer {
                                    best = Some((h, d));
                                }
                            }
                        },
                        None => {},
                    }
                },
                None => {},
            }
            i = i + 1;
        }
        proof {
            assert forall|o: ObjectHandle| #[trigger]
                self.hovers(types, o, cursor_world) implies candidates@.contains(o) by {
                let inst = self.lookup(o).unwrap();
                let spec = types.lookup(inst.type_id).unwrap();
                let radius = clamped_radius(spec.hover_radius as int);
                assert(types.slots()[inst.type_id.0 as int] == Some(spec));
                assert(radius <= types.radius_bound());
                let dx = cursor_world.x - inst.position_world.x;
                let dz = cursor_world.z - inst.position_world.z;
                assert(-radius <= dx <= radius && -radius <= dz <= radius) by (nonlinear_arith)
                    requires
                        dx * dx + dz * dz <= radius * radius,
                        radius >= 0,
                ;
                assert(self.grid_spec().cell_of(o) == self.home(self.grid_spec(), o));
                lemma_near_is_candidate(
                    self.grid_spec(),
                    o,
                    inst.position_world.xz(),
                    cursor_world.xz(),
                    reach as int,
                );
            }
            match best {
                Some((h, d)) => {
                    assert forall|o: ObjectHandle| #[trigger]
                        self.hovers(types, o, cursor_world) implies self.hover_distance(
                        h,
                        cursor_world,
                    ) <= self.hover_distance(o, cursor_world) by {
                        assert(candidates@.contains(o));
                        let j = choose|j: int| 0 <= j < candidates@.len() && candidates@[j] == o;
                        assert(self.hovers(types, candidates@[j], cursor_world));
                    }
                },
                None => {
                    assert forall|o: ObjectHandle| !#[trigger] self.hovers(
                        types,
                        o,
                        cursor_world,
                    ) by {
                        if self.hovers(types, o, cursor_world) {
                            assert(candidates@.contains(o));
                            let j = choose|j: int|
                                0 <= j < candidates@.len() && candidates@[j] == o;
                            assert(!self.hovers(types, candidates@[j], cursor_world));
                        }
                    }
                },
            }
        }
        match best {
            Some((h, _)) => Some(h),
            None => None,
        }
    }
}

} // verus!
