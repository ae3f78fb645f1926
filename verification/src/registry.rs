//! The catalog of object types: a slot table from small ids to immutable
//! specifications, with a free list so that a freed id is handed out again.

use vstd::prelude::*;
use crate::collision::collision_radius;
use crate::coords::GridCoord;
use crate::units::max_int;
use crate::units::WorldPos;

verus! {

/// Smallest radius that any geometric test works with: a tenth of a world
/// unit.
pub const MIN_HOVER_RADIUS: i32 = 100;

/// Most types a registry holds: ids are sixteen bits wide.
pub const MAX_OBJECT_TYPES: usize = 65536;

/// Names one entry of an [`ObjectTypeRegistry`]. An id that outlives its
/// entry names whatever is registered in the slot next.
#[derive(Clone, Copy, Debug, PartialEq, Eq, Hash, Structural)]
pub struct ObjectTypeId(pub u16);

/// Scale of a model along its three axes, in thousandths.
#[derive(Clone, Copy, Debug, PartialEq, Eq, Structural)]
pub struct Scale3 {
    pub x: i32,
    pub y: i32,
    pub z: i32,
}

/// What is known of one kind of object.
#[derive(Clone, Debug)]
pub struct ObjectTypeSpec {
    pub name: String,
    /// Model reference; empty for an object without a visual.
    pub gltf: String,
    /// Tiles that the object takes up along `x` and `z` where objects are
    /// placed tile by tile.
    pub footprint_tiles: GridCoord,
    pub render_scale: Scale3,
    /// Radius of the object's circle on the ground, for picking and for
    /// collision.
    pub hover_radius: i32,
    /// Offset of the visual alone; the logical position is not moved by it.
    pub scene_offset_local: WorldPos,
}

/// A radius as the geometric tests use it: never below `MIN_HOVER_RADIUS`.
pub open spec fn clamped_radius(radius: int) -> int {
    max_int(radius, MIN_HOVER_RADIUS as int)
}

/// The slot table of object types.
pub struct ObjectTypeRegistry {
    specs: Vec<Option<ObjectTypeSpec>>,
    free_list: Vec<u16>,
    max_hover_radius: i32,
}

impl ObjectTypeRegistry {
    /// The slots, by id; `None` where nothing is registered.
    pub closed spec fn slots(&self) -> Seq<Option<ObjectTypeSpec>> {
        self.specs@
    }

    /// The freed ids, the one to be handed out next last.
    pub closed spec fn free(&self) -> Seq<u16> {
        self.free_list@
    }

    /// No registered type has a clamped hover radius above this.
    pub closed spec fn radius_bound(&self) -> int {
        self.max_hover_radius as int
    }

    /// What `id` names: the entry of its slot, if the slot exists and is
    /// taken.
    pub open spec fn lookup(&self, id: ObjectTypeId) -> Option<ObjectTypeSpec> {
        if id.0 < self.slots().len() {
            self.slots()[id.0 as int]
        } else {
            None
        }
    }

    /// The free list names exactly the empty slots, each once; the table has
    /// no more slots than there are ids; the radius bound holds.
    pub open spec fn wf(&self) -> bool {
        &&& self.slots().len() <= MAX_OBJECT_TYPES
        &&& self.free().no_duplicates()
        &&& forall|k: int|
            0 <= k < self.free().len() ==> (#[trigger] self.free()[k]) < self.slots().len()
                && self.slots()[self.free()[k] as int] is None
        &&& forall|i: int|
            0 <= i < self.slots().len() && (#[trigger] self.slots()[i]) is None
                ==> self.free().contains(i as u16)
        &&& self.radius_bound() >= 0
        &&& forall|i: int|
            0 <= i < self.slots().len() ==> match #[trigger] self.slots()[i] {
                Some(spec) => clamped_radius(spec.hover_radius as int) <= self.radius_bound(),
                None => true,
            }
    }

    /// No id is left to hand out.
    pub open spec fn full(&self) -> bool {
        self.free().len() == 0 && self.slots().len() == MAX_OBJECT_TYPES
    }

    /// The id that the next registration gets: the freed id to be reused, or
    /// the first id never used.
    pub open spec fn next_id(&self) -> ObjectTypeId {
        if self.free().len() > 0 {
            ObjectTypeId(self.free().last())
        } else {
            ObjectTypeId(self.slots().len() as u16)
        }
    }

    /// An empty registry.
    pub fn new() -> (r: ObjectTypeRegistry)
        ensures
            r.wf(),
            r.slots().len() == 0,
            r.free().len() == 0,
            r.radius_bound() == 0,
    {
        ObjectTypeRegistry { specs: Vec::new(), free_list: Vec::new(), max_hover_radius: 0 }
    }

    pub fn is_full(&self) -> (b: bool)
        ensures
            b == self.full(),
    {
        self.free_list.len() == 0 && self.specs.len() == MAX_OBJECT_TYPES
    }

    /// The largest clamped hover radius that any type registered so far has
    /// had; zero while none was registered.
    pub fn max_hover_radius(&self) -> (r: i32)
        ensures
            r == self.radius_bound(),
    {
        self.max_hover_radius
    }

    /// Registers a type under `next_id()`: a freed slot if there is one, else
    /// a new slot at the end.
    pub fn register(&mut self, spec: ObjectTypeSpec) -> (id: ObjectTypeId)
        requires
            old(self).wf(),
            !old(self).full(),
        ensures
            final(self).wf(),
            id == old(self).next_id(),
            old(self).lookup(id) is None,
            final(self).lookup(id) == Some(spec),
            forall|other: ObjectTypeId|
                other != id ==> final(self).lookup(other) == old(self).lookup(other),
            old(self).free().len() > 0 ==> final(self).free() == old(self).free().drop_last()
                && final(self).slots().len() == old(self).slots().len(),
            old(self).free().len() == 0 ==> final(self).free() == old(self).free()
                && final(self).slots().len() == old(self).slots().len() + 1,
            final(self).radius_bound() == max_int(
                old(self).radius_bound(),
                clamped_radius(spec.hover_radius as int),
            ),
    {
        let radius: i32 = collision_radius(spec.hover_radius);
        if radius > self.max_hover_radius {
            self.max_hover_radius = radius;
        }
        match self.free_list.pop() {
            Some(slot) => {
                proof {
                    let k = old(self).free().len() - 1;
                    assert(old(self).free()[k] == slot);
                    assert forall|j: int| 0 <= j < self.free_list@.len() implies self.free_list@[j]
                        != slot by {
                        assert(self.free_list@[j] == old(self).free()[j]);
                    }
                }
                self.specs.set(slot as usize, Some(spec));
                proof {
                    assert forall|i: int|
                        0 <= i < self.slots().len() && (#[trigger] self.slots()[i]) is None implies self.free().contains(
                        i as u16,
                    ) by {
                        assert(old(self).slots()[i] is None);
                        let k = choose|k: int|
                            0 <= k < old(self).free().len() && old(self).free()[k] == i as u16;
                        assert(self.free()[k] == i as u16);
                    }
                    assert forall|k: int| 0 <= k < self.free().len() implies (
                    #[trigger] self.free()[k]) < self.slots().len()
                        && self.slots()[self.free()[k] as int] is None by {
                        assert(self.free()[k] == old(self).free()[k]);
                    }
                    assert forall|i: int| 0 <= i < self.slots().len() implies match
                        #[trigger] self.slots()[i] {
                        Some(s) => clamped_radius(s.hover_radius as int) <= self.radius_bound(),
                        None => true,
                    } by {
                        if i != slot {
                            assert(self.slots()[i] == old(self).slots()[i]);
                        }
                    }
                }
                ObjectTypeId(slot)
            },
            None => {
                let slot: u16 = self.specs.len() as u16;
                self.specs.push(Some(spec));
                proof {
                    assert forall|i: int|
                        0 <= i < self.slots().len() && (#[trigger] self.slots()[i]) is None implies self.free().contains(
                        i as u16,
                    ) by {
                        assert(old(self).slots()[i] is None);
                    }
                    assert forall|i: int| 0 <= i < self.slots().len() implies match
                        #[trigger] self.slots()[i] {
                        Some(s) => clamped_radius(s.hover_radius as int) <= self.radius_bound(),
                        None => true,
                    } by {
                        if i < old(self).slots().len() {
                            assert(self.slots()[i] == old(self).slots()[i]);
                        }
                    }
                }
                ObjectTypeId(slot)
            },
        }
    }

    /// The entry that `id` names, if any.
    pub fn get(&self, id: ObjectTypeId) -> (r: Option<&ObjectTypeSpec>)
        ensures
            match r {
                Some(spec) => self.lookup(id) == Some(*spec),
                None => self.lookup(id) is None,
            },
    {
        let i: usize = id.0 as usize;
        if i < self.specs.len() {
            self.specs[i].as_ref()
        } else {
            None
        }
    }

    /// Takes the entry that `id` names out of the registry and frees the id
    /// for the next registration. Nothing else marks the id as stale.
    pub fn remove(&mut self, id: ObjectTypeId) -> (r: Option<ObjectTypeSpec>)
        requires
            old(self).wf(),
        ensures
            final(self).wf(),
            r == old(self).lookup(id),
            final(self).lookup(id) is None,
            forall|other: ObjectTypeId|
                other != id ==> final(self).lookup(other) == old(self).lookup(other),
            final(self).slots().len() == old(self).slots().len(),
            final(self).free() == if r is Some {
                old(self).free().push(id.0)
            } else {
                old(self).free()
            },
            final(self).radius_bound() == old(self).radius_bound(),
    {
        let i: usize = id.0 as usize;
        if i >= self.specs.len() {
            return None;
        }
        if self.specs[i].is_none() {
            return None;
        }
        self.specs.push(None);
        let taken: Option<ObjectTypeSpec> = self.specs.swap_remove(i);
        proof {
            if old(self).free().contains(id.0) {
                let k = choose|k: int| 0 <= k < old(self).free().len() && old(self).free()[k] == id.0;
                assert(old(self).slots()[old(self).free()[k] as int] is None);
            }
        }
        self.free_list.push(id.0);
        proof {
            assert(self.slots() =~= old(self).slots().update(i as int, None));
            assert forall|a: int, b: int|
                0 <= a < self.free().len() && 0 <= b < self.free().len() && a != b implies self.free()[a]
                != self.free()[b] by {
                if a < old(self).free().len() {
                    assert(old(self).free().contains(old(self).free()[a]));
                }
                if b < old(self).free().len() {
                    assert(old(self).free().contains(old(self).free()[b]));
                }
            }
            assert forall|j: int|
                0 <= j < self.slots().len() && (#[trigger] self.slots()[j]) is None implies self.free().contains(
                j as u16,
            ) by {
                if j == i {
                    assert(self.free()[self.free().len() - 1] == id.0);
                } else {
                    assert(old(self).slots()[j] is None);
                    let k = choose|k: int|
                        0 <= k < old(self).free().len() && old(self).free()[k] == j as u16;
                    assert(self.free()[k] == j as u16);
                }
            }
            assert forall|k: int| 0 <= k < self.free().len() implies (#[trigger] self.free()[k])
                < self.slots().len() && self.slots()[self.free()[k] as int] is None by {
                if k < old(self).free().len() {
                    assert(self.free()[k] == old(self).free()[k]);
                }
            }
            assert forall|j: int| 0 <= j < self.slots().len() implies match
                #[trigger] self.slots()[j] {
                Some(s) => clamped_radius(s.hover_radius as int) <= self.radius_bound(),
                None => true,
            } by {
                if j != i {
                    assert(self.slots()[j] == old(self).slots()[j]);
                }
            }
        }
        taken
    }
}

} // verus!
