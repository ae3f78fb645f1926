//! Handles of placed objects.

use vstd::prelude::*;

verus! {

/// Names one placed object: the slot that holds it and the generation of the
/// slot at the time. A slot's generation changes whenever its object is
/// removed, so a handle kept from before never matches the slot's next
/// occupant.
#[derive(Clone, Copy, Debug, PartialEq, Eq, Hash, Structural)]
pub struct ObjectHandle {
    pub index: u32,
    pub generation: u32,
}

impl ObjectHandle {
    pub fn new(index: u32, generation: u32) -> (h: ObjectHandle)
        ensures
            h == (ObjectHandle { index, generation }),
    {
        ObjectHandle { index, generation }
    }

    /// The handle as one integer, for use as a hash key. Distinct handles
    /// have distinct keys (`lemma_key_injective`).
    pub open spec fn key(self) -> u64 {
        (self.index * 0x1_0000_0000 + self.generation) as u64
    }

    pub fn to_key(&self) -> (k: u64)
        ensures
            k == self.key(),
    {
        (self.index as u64) * 0x1_0000_0000 + (self.generation as u64)
    }

    pub proof fn lemma_key_injective(a: ObjectHandle, b: ObjectHandle)
        requires
            a.key() == b.key(),
        ensures
            a == b,
    {
    }
}

} // verus!
