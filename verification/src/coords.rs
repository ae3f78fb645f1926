//! Integer grid coordinates: chunks of the terrain and cells of the spatial
//! hash share one type.

use vstd::prelude::*;

verus! {

/// A chunk or cell of a square grid over the ground plane.
#[derive(Clone, Copy, Debug, PartialEq, Eq, Hash, Structural)]
pub struct GridCoord {
    pub x: i32,
    pub z: i32,
}

/// Chebyshev distance: the larger of the two axis distances.
pub open spec fn chebyshev(a: GridCoord, b: GridCoord) -> int {
    let dx = if a.x >= b.x {
        a.x - b.x
    } else {
        b.x - a.x
    };
    let dz = if a.z >= b.z {
        a.z - b.z
    } else {
        b.z - a.z
    };
    if dx >= dz {
        dx
    } else {
        dz
    }
}

/// Lowest coordinate of a window on one axis, held inside the coordinate range.
pub open spec fn clip_lo(c: int, reach: int) -> int {
    if c - reach < i32::MIN {
        i32::MIN as int
    } else {
        c - reach
    }
}

/// Highest coordinate of a window on one axis, held inside the coordinate range.
pub open spec fn clip_hi(c: int, reach: int) -> int {
    if c + reach > i32::MAX {
        i32::MAX as int
    } else {
        c + reach
    }
}

/// Coordinates on one axis that a window spans.
pub open spec fn clip_len(c: int, reach: int) -> int {
    clip_hi(c, reach) - clip_lo(c, reach) + 1
}

/// The square window around `center`: every coordinate within Chebyshev
/// distance `reach`, row by row along `z`, each row along `x`.
pub open spec fn window(center: GridCoord, reach: int) -> Seq<GridCoord> {
    let w = clip_len(center.x as int, reach);
    let h = clip_len(center.z as int, reach);
    Seq::new(
        (w * h) as nat,
        |k: int|
            GridCoord {
                x: (clip_lo(center.x as int, reach) + k % w) as i32,
                z: (clip_lo(center.z as int, reach) + k / w) as i32,
            },
    )
}

impl GridCoord {
    pub fn new(x: i32, z: i32) -> (c: GridCoord)
        ensures
            c == (GridCoord { x, z }),
    {
        GridCoord { x, z }
    }

    /// The coordinate as one integer, for use as a hash key. Distinct
    /// coordinates have distinct keys (`lemma_key_injective`).
    pub open spec fn key(self) -> u64 {
        ((self.x - i32::MIN) * 0x1_0000_0000 + (self.z - i32::MIN)) as u64
    }

    pub fn to_key(&self) -> (k: u64)
        ensures
            k == self.key(),
    {
        let hi: u64 = (self.x as i64 - i32::MIN as i64) as u64;
        let lo: u64 = (self.z as i64 - i32::MIN as i64) as u64;
        hi * 0x1_0000_0000 + lo
    }

    pub proof fn lemma_key_injective(a: GridCoord, b: GridCoord)
        requires
            a.key() == b.key(),
        ensures
            a == b,
    {
    }

    /// Whether `self` lies in the square window of the given reach around
    /// `center`.
    pub fn within(&self, center: GridCoord, reach: i32) -> (b: bool)
        ensures
            b == (chebyshev(*self, center) <= reach),
    {
        let dx: i64 = self.x as i64 - center.x as i64;
        let dz: i64 = self.z as i64 - center.z as i64;
        let r: i64 = reach as i64;
        -r <= dx && dx <= r && -r <= dz && dz <= r
    }
}

} // verus!
