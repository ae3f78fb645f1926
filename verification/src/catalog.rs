//! The object types that a game knows: the registry and the ids in the order
//! they were defined.

use vstd::prelude::*;
use crate::coords::GridCoord;
use crate::registry::clamped_radius;
use crate::registry::ObjectTypeId;
use crate::registry::ObjectTypeRegistry;
use crate::registry::ObjectTypeSpec;
use crate::registry::Scale3;
use crate::registry::MAX_OBJECT_TYPES;
use crate::units::max_int;
use crate::units::WorldPos;
use crate::units::UNITS_PER_WORLD_UNIT;

verus! {

/// The registry of object types, and the ids that can be built.
pub struct ObjectTypes {
    pub registry: ObjectTypeRegistry,
    pub available: Vec<ObjectTypeId>,
}

/// Whether `spec` is the stand-in type of a game without object
/// definitions: named for what it is, without a visual, one tile large, of
/// scale one, with a hover radius of one world unit.
pub open spec fn is_placeholder(spec: ObjectTypeSpec) -> bool {
    &&& spec.name@ == "MissingObjectDefs"@
    &&& spec.gltf@.len() == 0
    &&& spec.footprint_tiles == (GridCoord { x: 1, z: 1 })
    &&& spec.render_scale == (Scale3 {
        x: UNITS_PER_WORLD_UNIT,
        y: UNITS_PER_WORLD_UNIT,
        z: UNITS_PER_WORLD_UNIT,
    })
    &&& spec.hover_radius == UNITS_PER_WORLD_UNIT
    &&& spec.scene_offset_local == (WorldPos { x: 0, y: 0, z: 0 })
}

/// The stand-in type of a game without object definitions.
pub fn missing_object_defs() -> (spec: ObjectTypeSpec)
    ensures
        is_placeholder(spec),
{
    ObjectTypeSpec {
        name: "MissingObjectDefs".to_string(),
        gltf: String::new(),
        footprint_tiles: GridCoord { x: 1, z: 1 },
        render_scale: Scale3 {
            x: UNITS_PER_WORLD_UNIT,
            y: UNITS_PER_WORLD_UNIT,
            z: UNITS_PER_WORLD_UNIT,
        },
        hover_radius: UNITS_PER_WORLD_UNIT,
        scene_offset_local: WorldPos { x: 0, y: 0, z: 0 },
    }
}

/// The largest clamped hover radius among the definitions; nothing where
/// there is none.
pub open spec fn largest_radius(specs: Seq<ObjectTypeSpec>) -> int
    decreases specs.len(),
{
    if specs.len() == 0 {
        0
    } else {
        max_int(
            largest_radius(specs.drop_last()),
            clamped_radius(specs.last().hover_radius as int),
        )
    }
}

impl ObjectTypes {
    /// The catalog of the given definitions, registered in order under the
    /// ids `0, 1, 2, ...`; the registry's radius bound is the largest clamped
    /// hover radius among them. Without any definition the catalog holds the
    /// one placeholder type, so that the game runs, visibly degraded.
    pub fn from_specs(specs: Vec<ObjectTypeSpec>) -> (types: ObjectTypes)
        requires
            specs@.len() <= MAX_OBJECT_TYPES,
        ensures
            types.registry.wf(),
            types.registry.free().len() == 0,
            specs@.len() > 0 ==> {
                &&& types.registry.radius_bound() == largest_radius(specs@)
                &&& types.available@.len() == specs@.len()
                &&& types.registry.slots().len() == specs@.len()
                &&& forall|i: int|
                    0 <= i < specs@.len() ==> (#[trigger] types.available@[i]) == ObjectTypeId(
                        i as u16,
                    ) && types.registry.lookup(ObjectTypeId(i as u16)) == Some(specs@[i])
            },
            specs@.len() == 0 ==> {
                &&& types.registry.radius_bound() == UNITS_PER_WORLD_UNIT
                &&& types.available@ == seq![ObjectTypeId(0)]
                &&& types.registry.slots().len() == 1
                &&& types.registry.lookup(ObjectTypeId(0)) matches Some(spec) && is_placeholder(
                    spec,
                )
            },
    {
        let mut registry: ObjectTypeRegistry = ObjectTypeRegistry::new();
        let mut available: Vec<ObjectTypeId> = Vec::new();
        if specs.len() == 0 {
            let id: ObjectTypeId = registry.register(missing_object_defs());
            available.push(id);
            assert(available@ =~= seq![ObjectTypeId(0)]);
            return ObjectTypes { registry, available };
        }
        let mut rest: Vec<ObjectTypeSpec> = specs;
        let ghost all = rest@;
        let ghost mut done: int = 0;
        while rest.len() > 0
            invariant
                0 <= done <= all.len() <= MAX_OBJECT_TYPES,
                rest@ == all.skip(done),
                registry.wf(),
                registry.free().len() == 0,
                registry.slots().len() == done,
                registry.radius_bound() == largest_radius(all.take(done)),
                available@.len() == done,
                forall|i: int|
                    0 <= i < done ==> (#[trigger] available@[i]) == ObjectTypeId(i as u16)
                        && registry.lookup(ObjectTypeId(i as u16)) == Some(all[i]),
            decreases rest@.len(),
        {
            let ghost listed = available@;
            let ghost known = registry;
            let spec: ObjectTypeSpec = rest.remove(0);
            assert(spec == all[done]);
            assert(rest@ =~= all.skip(done + 1));
            let id: ObjectTypeId = registry.register(spec);
            available.push(id);
            proof {
                assert(all.take(done + 1).drop_last() =~= all.take(done));
                assert(all.take(done + 1).last() == all[done]);
                assert forall|i: int| 0 <= i < done + 1 implies (#[trigger] available@[i])
                    == ObjectTypeId(i as u16) && registry.lookup(ObjectTypeId(i as u16)) == Some(
                    all[i],
                ) by {
                    if i < done {
                        assert(listed[i] == ObjectTypeId(i as u16));
                        assert(known.lookup(ObjectTypeId(i as u16)) == Some(all[i]));
                        assert(ObjectTypeId(i as u16) != id);
                    }
                }
                done = done + 1;
            }
        }
        assert(done == all.len());
        assert(all.take(done) =~= all);
        ObjectTypes { registry, available }
    }

    /// The type that is built when none was chosen: the first defined.
    pub fn default_object(&self) -> (r: Option<ObjectTypeId>)
        ensures
            r == if self.available@.len() > 0 {
                Some(self.available@[0])
            } else {
                None
            },
    {
        if self.available.len() > 0 {
            Some(self.available[0])
        } else {
            None
        }
    }
}

} // verus!
