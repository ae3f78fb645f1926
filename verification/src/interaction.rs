//! What the player's tools do to the object world: hovering, building,
//! destroying.

use vstd::prelude::*;
use crate::handle::ObjectHandle;
use crate::objects::FreeformObjectInstance;
use crate::objects::FreeformObjectWorld;
use crate::registry::ObjectTypeId;
use crate::registry::ObjectTypeRegistry;
use crate::units::WorldPos;

verus! {

/// The tool in hand.
#[derive(Clone, Copy, Debug, PartialEq, Eq, Structural)]
pub enum ToolbarMode {
    /// No tool.
    Idle,
    /// Builds objects of the given type.
    Construct { object: ObjectTypeId },
    /// Removes the hovered object.
    Destroy,
}

/// The object under the cursor, if the cursor is on the terrain at all.
pub fn update_hovered_object(
    hit: Option<WorldPos>,
    objects: &FreeformObjectWorld,
    types: &ObjectTypeRegistry,
) -> (hovered: Option<ObjectHandle>)
    requires
        objects.wf(),
        types.wf(),
    ensures
        match hit {
            Some(cursor) => objects.picked(types, cursor, hovered),
            None => hovered is None,
        },
{
    match hit {
        Some(cursor) => objects.pick_hovered(types, cursor),
        None => None,
    }
}

/// What a click does, and what it returns.
///
/// - Building: where the cursor is on the terrain, the world has room and
///   nothing is in the way, an object of the tool's type is placed at the
///   cursor under the given yaw, and its handle returned. Anywhere else the
///   click is refused without a trace.
/// - Destroying: the hovered object is removed and its handle returned; a
///   handle that names nothing removes nothing.
/// - Without a tool nothing happens.
pub open spec fn clicked(
    before: FreeformObjectWorld,
    after: FreeformObjectWorld,
    mode: ToolbarMode,
    hit: Option<WorldPos>,
    yaw: i32,
    types: &ObjectTypeRegistry,
    hovered: Option<ObjectHandle>,
    r: Option<ObjectHandle>,
) -> bool {
    match mode {
        ToolbarMode::Construct { object } => {
            if hit matches Some(at) && !before.full() && before.placeable(types, object, at) {
                r matches Some(handle) && after.placed(
                    before,
                    FreeformObjectInstance {
                        type_id: object,
                        position_world: hit.unwrap(),
                        yaw,
                    },
                    handle,
                )
            } else {
                r is None && after == before
            }
        },
        ToolbarMode::Destroy => match hovered {
            Some(handle) => after.removed(before, handle, r),
            None => r is None && after == before,
        },
        ToolbarMode::Idle => r is None && after == before,
    }
}

/// Carries out a click with the tool in hand: `clicked` says what it does.
pub fn handle_build_destroy_click(
    mode: ToolbarMode,
    hit: Option<WorldPos>,
    yaw: i32,
    types: &ObjectTypeRegistry,
    objects: &mut FreeformObjectWorld,
    hovered: Option<ObjectHandle>,
) -> (r: Option<ObjectHandle>)
    requires
        old(objects).wf(),
    ensures
        final(objects).wf(),
        clicked(*old(objects), *final(objects), mode, hit, yaw, types, hovered, r),
{
    match mode {
        ToolbarMode::Construct { object } => {
            match hit {
                Some(at) => {
                    if !objects.is_full() && objects.can_place_non_overlapping(types, object, at) {
                        Some(objects.place(object, at, yaw))
                    } else {
                        None
                    }
                },
                None => None,
            }
        },
        ToolbarMode::Destroy => {
            match hovered {
                Some(handle) => objects.remove(handle),
                None => None,
            }
        },
        ToolbarMode::Idle => None,
    }
}

} // verus!
