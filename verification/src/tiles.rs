//! The tile-type table: which surface a stretch of terrain shows, by height.

use vstd::prelude::*;

verus! {

/// An sRGB colour, eight bits per channel.
#[derive(Clone, Copy, Debug, PartialEq, Eq, Structural)]
pub struct Srgb8 {
    pub r: u8,
    pub g: u8,
    pub b: u8,
}

/// One surface kind. A tile shows it when its height is below `height_lt` and
/// no earlier entry of the table already claimed it.
#[derive(Clone, Debug)]
pub struct TileType {
    pub name: String,
    pub color_srgb: Srgb8,
    /// Exclusive upper height bound, in fixed-point units.
    pub height_lt: i32,
}

/// The table of surface kinds, lowest first.
#[derive(Clone, Debug)]
pub struct TileTypes {
    pub tiles: Vec<TileType>,
}

/// Why a table was turned down.
#[derive(Clone, Copy, Debug, PartialEq, Eq, Structural)]
pub enum TileTypesError {
    /// The table has no entry.
    Empty,
    /// The entry at `index` does not raise the threshold of the one before it.
    NotIncreasing { index: usize },
}

/// Every threshold is above all earlier ones.
pub open spec fn strictly_increasing(t: Seq<int>) -> bool {
    forall|i: int, j: int| 0 <= i < j < t.len() ==> t[i] < t[j]
}

/// Each of the first `n` thresholds is above its predecessor.
pub open spec fn rising_up_to(t: Seq<int>, n: int) -> bool {
    forall|j: int| 1 <= j < n ==> t[j - 1] < #[trigger] t[j]
}

/// Rising step by step is rising overall.
pub proof fn lemma_rising_is_increasing(t: Seq<int>)
    requires
        rising_up_to(t, t.len() as int),
    ensures
        strictly_increasing(t),
{
    assert forall|i: int, j: int| 0 <= i < j < t.len() implies t[i] < t[j] by {
        lemma_rising_pair(t, i, j);
    }
}

proof fn lemma_rising_pair(t: Seq<int>, i: int, j: int)
    requires
        rising_up_to(t, t.len() as int),
        0 <= i < j < t.len(),
    ensures
        t[i] < t[j],
    decreases j - i,
{
    assert(t[j - 1] < t[j]);
    if i < j - 1 {
        lemma_rising_pair(t, i, j - 1);
    }
}

/// The index that `height` selects in a table with thresholds `t`: the first
/// whose threshold exceeds it, else the last.
pub open spec fn picks(t: Seq<int>, height: int, index: int) -> bool {
    &&& t.len() == 0 ==> index == 0
    &&& t.len() > 0 ==> 0 <= index < t.len()
    &&& forall|j: int| 0 <= j < index ==> t[j] <= height
    &&& t.len() > 0 ==> (height < t[index] || index == t.len() - 1)
}

/// `picks` names one index only.
pub proof fn lemma_picks_unique(t: Seq<int>, height: int, a: int, b: int)
    requires
        picks(t, height, a),
        picks(t, height, b),
    ensures
        a == b,
{
    if a < b {
        assert(t[a] <= height);
    }
    if b < a {
        assert(t[b] <= height);
    }
}

impl TileTypes {
    /// The thresholds of the table, in order.
    pub open spec fn thresholds(&self) -> Seq<int> {
        Seq::new(self.tiles@.len(), |i: int| self.tiles@[i].height_lt as int)
    }

    /// A usable table: at least one entry, thresholds strictly increasing.
    pub open spec fn valid(&self) -> bool {
        &&& self.tiles@.len() > 0
        &&& strictly_increasing(self.thresholds())
    }

    /// Number of entries; the width of the colour atlas.
    pub fn tile_count(&self) -> (n: usize)
        ensures
            n == self.tiles@.len(),
    {
        self.tiles.len()
    }

    /// Texel `i` of the atlas in `data` shows the colour of tile `i`: four
    /// bytes from `4 * i` on, red, green, blue and full opacity.
    pub open spec fn texel_shows(&self, data: Seq<u8>, i: int) -> bool {
        &&& data[4 * i] == self.tiles@[i].color_srgb.r
        &&& data[4 * i + 1] == self.tiles@[i].color_srgb.g
        &&& data[4 * i + 2] == self.tiles@[i].color_srgb.b
        &&& data[4 * i + 3] == 255
    }

    /// The colours of the table as the texels of an atlas one row high, a
    /// texel a tile.
    pub fn atlas_rgba(&self) -> (data: Vec<u8>)
        ensures
            data@.len() == 4 * self.tiles@.len(),
            forall|i: int| 0 <= i < self.tiles@.len() ==> #[trigger] self.texel_shows(data@, i),
    {
        let mut data: Vec<u8> = Vec::new();
        let mut i: usize = 0;
        while i < self.tiles.len()
            invariant
                0 <= i <= self.tiles@.len(),
                data@.len() == 4 * i,
                forall|j: int| 0 <= j < i ==> #[trigger] self.texel_shows(data@, j),
            decreases self.tiles@.len() - i,
        {
            let ghost before = data@;
            let c: Srgb8 = self.tiles[i].color_srgb;
            data.push(c.r);
            data.push(c.g);
            data.push(c.b);
            data.push(255);
            proof {
                assert forall|j: int| 0 <= j < i + 1 implies #[trigger] self.texel_shows(
                    data@,
                    j,
                ) by {
                    if j < i {
                        assert(self.texel_shows(before, j));
                    }
                }
            }
            i = i + 1;
        }
        data
    }

    /// Accepts the table exactly when it is `valid`, and otherwise names the
    /// first fault.
    pub fn validate(&self) -> (r: Result<(), TileTypesError>)
        ensures
            r is Ok <==> self.valid(),
            r == Err::<(), TileTypesError>(TileTypesError::Empty) <==> self.tiles@.len() == 0,
            forall|index: usize|
                r == Err::<(), TileTypesError>(TileTypesError::NotIncreasing { index }) <==> {
                    &&& 1 <= index < self.tiles@.len()
                    &&& self.thresholds()[index as int] <= self.thresholds()[index - 1]
                    &&& rising_up_to(self.thresholds(), index as int)
                },
    {
        let n: usize = self.tiles.len();
        if n == 0 {
            return Err(TileTypesError::Empty);
        }
        let mut i: usize = 1;
        while i < n
            invariant
                1 <= i <= n,
                n == self.tiles@.len(),
                rising_up_to(self.thresholds(), i as int),
            decreases n - i,
        {
            if self.tiles[i].height_lt <= self.tiles[i - 1].height_lt {
                proof {
                    let t = self.thresholds();
                    assert(!strictly_increasing(t)) by {
                        assert(0 <= i - 1 < i < t.len() && !(t[i - 1] < t[i as int]));
                    }
                    assert forall|index: usize|
                        1 <= index < n && t[index as int] <= t[index - 1] && rising_up_to(
                            t,
                            index as int,
                        ) implies index == i by {
                        if index < i {
                            assert(t[index - 1] < t[index as int]);
                        }
                        if index > i {
                            assert(t[i - 1] < t[i as int]);
                        }
                    }
                }
                return Err(TileTypesError::NotIncreasing { index: i });
            }
            i = i + 1;
        }
        proof {
            let t = self.thresholds();
            lemma_rising_is_increasing(t);
        }
        Ok(())
    }

    /// The entry that terrain of the given height shows: the first whose
    /// threshold exceeds it, else the last.
    pub fn pick_tile_index(&self, height: i32) -> (index: u32)
        requires
            self.tiles@.len() <= u32::MAX,
        ensures
            picks(self.thresholds(), height as int, index as int),
    {
        let n: usize = self.tiles.len();
        let mut i: usize = 0;
        while i < n
            invariant
                0 <= i <= n,
                n == self.tiles@.len(),
                n <= u32::MAX,
                forall|j: int| 0 <= j < i ==> self.thresholds()[j] <= height,
            decreases n - i,
        {
            if height < self.tiles[i].height_lt {
                return i as u32;
            }
            i = i + 1;
        }
        if n == 0 {
            0
        } else {
            (n - 1) as u32
        }
    }
}

} // verus!
