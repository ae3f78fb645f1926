//! A uniform grid over the ground plane that indexes object handles by the
//! cell their position falls in, for proximity queries.
//!
//! The grid bounds a search; it does not decide it. A query returns
//! candidates, and the caller applies its own precise test to each.

use vstd::prelude::*;
use std::collections::HashMap;
use std::collections::HashSet;
use crate::coords::chebyshev;
use crate::coords::clip_hi;
use crate::coords::clip_len;
use crate::coords::clip_lo;
use crate::coords::window;
use crate::coords::GridCoord;
use crate::handle::ObjectHandle;
use crate::seqs::lemma_contains_last;
use crate::seqs::lemma_filter_all_pass;
use crate::seqs::lemma_filter_members;
use crate::seqs::lemma_filter_take_step;
use crate::seqs::lemma_push_fresh;
use crate::units::ceil_div;
use crate::units::ceil_div_spec;
use crate::units::floor_div;
use crate::units::floor_div_spec;
use crate::units::lemma_cell_number;
use crate::units::lemma_floor_div_in_range;
use crate::units::lemma_floor_div_near;
use crate::units::max_int;
use crate::units::WorldPos;
use crate::units::WorldXz;

verus! {

broadcast use vstd::std_specs::hash::group_hash_axioms;

/// Cell edge of a default grid: eight world units.
pub const DEFAULT_CELL_SIZE: i32 = 8000;

/// "Is another handle than `h`."
pub open spec fn is_not(h: ObjectHandle) -> spec_fn(ObjectHandle) -> bool {
    |e: ObjectHandle| e != h
}

/// The spatial hash.
pub struct SpatialHashGrid {
    cell_size: i32,
    cells: HashMap<u64, Vec<ObjectHandle>>,
    entity_cell: HashMap<u64, GridCoord>,
}

/// The handles of `list` other than `h`, in order.
fn without(list: &Vec<ObjectHandle>, h: ObjectHandle) -> (kept: Vec<ObjectHandle>)
    ensures
        kept@ == list@.filter(is_not(h)),
{
    let mut kept: Vec<ObjectHandle> = Vec::new();
    let mut i: usize = 0;
    proof {
        list@.take(0).lemma_filter_len(is_not(h));
    }
    while i < list.len()
        invariant
            0 <= i <= list@.len(),
            kept@ == list@.take(i as int).filter(is_not(h)),
        decreases list@.len() - i,
    {
        proof {
            lemma_filter_take_step(list@, i as int, is_not(h));
        }
        if list[i] != h {
            kept.push(list[i]);
        }
        i = i + 1;
    }
    proof {
        list@.lemma_take_len();
    }
    kept
}

impl Default for SpatialHashGrid {
    /// An empty grid with cells of `DEFAULT_CELL_SIZE`: large enough to keep
    /// the lists short, small enough for local queries.
    fn default() -> (g: SpatialHashGrid)
        ensures
            g.wf(),
            g.cell_size() == DEFAULT_CELL_SIZE,
            forall|h: ObjectHandle| g.cell_of(h) is None,
            forall|c: GridCoord| g.members(c) == Seq::<ObjectHandle>::empty(),
    {
        SpatialHashGrid::new(DEFAULT_CELL_SIZE)
    }
}

/// Every indexed handle is listed in the cell it is mapped to, once, and in no
/// other cell.
pub proof fn lemma_indexed_once(grid: SpatialHashGrid, h: ObjectHandle, c: GridCoord)
    requires
        grid.wf(),
        grid.cell_of(h) == Some(c),
    ensures
        grid.members(c).contains(h),
        grid.members(c).no_duplicates(),
        forall|other: GridCoord| other != c ==> !grid.members(other).contains(h),
{
    assert(grid.members(c).contains(h) <==> grid.cell_of(h) == Some(c));
    assert forall|other: GridCoord| other != c implies !grid.members(other).contains(h) by {
        assert(grid.members(other).contains(h) <==> grid.cell_of(h) == Some(other));
    }
}

/// A query whose radius reaches every occupied cell returns every indexed
/// handle, once: `out` stands for what `query_candidates` returned.
pub proof fn lemma_wide_query_returns_all(
    grid: SpatialHashGrid,
    center: WorldXz,
    radius: int,
    out: Seq<ObjectHandle>,
)
    requires
        grid.wf(),
        out.no_duplicates(),
        forall|h: ObjectHandle| #[trigger] out.contains(h) <==> grid.is_candidate(h, center, radius),
        forall|h: ObjectHandle|
            (#[trigger] grid.cell_of(h)) matches Some(c) ==> chebyshev(
                c,
                grid.cell_of_world_spec(center),
            ) <= grid.reach(radius),
    ensures
        out.no_duplicates(),
        forall|h: ObjectHandle| #[trigger] out.contains(h) <==> grid.cell_of(h) is Some,
{
    assert forall|h: ObjectHandle| #[trigger] out.contains(h) <==> grid.cell_of(h) is Some by {
        assert(out.contains(h) <==> grid.is_candidate(h, center, radius));
    }
}

/// Taking a handle out of the index takes it out of every query's result and
/// leaves the others in their order: `after` stands for the grid once
/// `remove(h)` has returned on `before`.
pub proof fn lemma_query_after_remove(
    before: SpatialHashGrid,
    after: SpatialHashGrid,
    h: ObjectHandle,
    center: WorldXz,
    radius: int,
)
    requires
        before.wf(),
        after.cell_size() == before.cell_size(),
        forall|c: GridCoord| #[trigger]
            after.members(c) == before.members_after_removal(c, h),
    ensures
        after.candidates(center, radius) == before.candidates(center, radius).filter(is_not(h)),
{
    let cells = window(before.cell_of_world_spec(center), before.reach(radius));
    lemma_listed_after_remove(before, after, h, cells, cells.len());
}

/// The same, of the lists of the first `n` of any cells.
pub proof fn lemma_listed_after_remove(
    before: SpatialHashGrid,
    after: SpatialHashGrid,
    h: ObjectHandle,
    cells: Seq<GridCoord>,
    n: nat,
)
    requires
        before.wf(),
        forall|c: GridCoord| #[trigger]
            after.members(c) == before.members_after_removal(c, h),
    ensures
        after.listed(cells, n) == before.listed(cells, n).filter(is_not(h)),
    decreases n,
{
    if n == 0 {
        Seq::<ObjectHandle>::empty().lemma_filter_len(is_not(h));
    } else {
        lemma_listed_after_remove(before, after, h, cells, (n - 1) as nat);
        let c = cells[n - 1];
        let list = before.members(c);
        assert(after.members(c) == before.members_after_removal(c, h));
        if before.cell_of(h) != Some(c) {
            assert(list.contains(h) <==> before.cell_of(h) == Some(c));
            assert forall|i: int| 0 <= i < list.len() implies is_not(h)(#[trigger] list[i]) by {
                assert(list.contains(list[i]));
            }
            lemma_filter_all_pass(list, is_not(h));
        }
        Seq::filter_distributes_over_add(
            before.listed(cells, (n - 1) as nat),
            list,
            is_not(h),
        );
    }
}

/// A query misses nothing near: a handle indexed at a point no further than
/// `radius` from the query's center, along either axis, is a candidate.
pub proof fn lemma_near_is_candidate(
    grid: SpatialHashGrid,
    h: ObjectHandle,
    at: WorldXz,
    center: WorldXz,
    radius: int,
)
    requires
        radius >= 0,
        grid.cell_of(h) == Some(grid.cell_of_world_spec(at)),
        center.x - radius <= at.x <= center.x + radius,
        center.z - radius <= at.z <= center.z + radius,
    ensures
        grid.is_candidate(h, center, radius),
{
    let d = grid.edge();
    lemma_floor_div_near(center.x as int, at.x as int, radius, d);
    lemma_floor_div_near(center.z as int, at.z as int, radius, d);
    lemma_floor_div_in_range(center.x as int, d);
    lemma_floor_div_in_range(center.z as int, d);
    lemma_floor_div_in_range(at.x as int, d);
    lemma_floor_div_in_range(at.z as int, d);
}

impl SpatialHashGrid {
    pub closed spec fn cell_size_spec(&self) -> i32 {
        self.cell_size
    }

    /// The cell edge that the grid was made with, in fixed-point units.
    #[verifier::when_used_as_spec(cell_size_spec)]
    pub fn cell_size(&self) -> (s: i32)
        ensures
            s == self.cell_size(),
    {
        self.cell_size
    }

    /// The cell edge that the grid works with: never below one unit.
    pub open spec fn edge(&self) -> int {
        max_int(self.cell_size() as int, 1)
    }

    /// The cell that an indexed handle is in; `None` for a handle that is not
    /// indexed.
    pub closed spec fn cell_of(&self, h: ObjectHandle) -> Option<GridCoord> {
        if self.entity_cell@.contains_key(h.key()) {
            Some(self.entity_cell@[h.key()])
        } else {
            None
        }
    }

    /// The handles listed in a cell, in the order they entered it.
    pub closed spec fn members(&self, c: GridCoord) -> Seq<ObjectHandle> {
        if self.cells@.contains_key(c.key()) {
            self.cells@[c.key()]@
        } else {
            Seq::empty()
        }
    }

    /// The two directions of the index agree: a handle is listed in a cell
    /// exactly when that is the cell it is mapped to, and no list names a
    /// handle twice. So every indexed handle is in exactly one list, once.
    pub open spec fn wf(&self) -> bool {
        &&& forall|c: GridCoord| #[trigger] self.members(c).no_duplicates()
        &&& forall|c: GridCoord, h: ObjectHandle| #[trigger]
            self.members(c).contains(h) <==> self.cell_of(h) == Some(c)
    }

    /// The cell that a point of the ground plane falls in.
    pub open spec fn cell_of_world_spec(&self, p: WorldXz) -> GridCoord {
        GridCoord {
            x: floor_div_spec(p.x as int, self.edge()) as i32,
            z: floor_div_spec(p.z as int, self.edge()) as i32,
        }
    }

    /// How many cells a query of the given radius looks out in each direction.
    pub open spec fn reach(&self, radius: int) -> int {
        ceil_div_spec(max_int(radius, 0), self.edge())
    }

    /// Whether a query around `center` with the given radius looks at the
    /// handle: it is indexed, in a cell of the block of `2 * reach + 1` cells
    /// a side around the center's cell.
    pub open spec fn is_candidate(&self, h: ObjectHandle, center: WorldXz, radius: int) -> bool {
        match self.cell_of(h) {
            Some(c) => chebyshev(c, self.cell_of_world_spec(center)) <= self.reach(radius),
            None => false,
        }
    }

    /// The lists of the first `n` of the given cells, on end.
    pub open spec fn listed(&self, cells: Seq<GridCoord>, n: nat) -> Seq<ObjectHandle>
        decreases n,
    {
        if n == 0 {
            Seq::empty()
        } else {
            self.listed(cells, (n - 1) as nat) + self.members(cells[n - 1])
        }
    }

    /// What a query around `center` with the given radius returns: the lists
    /// of the cells of the block that the radius reaches, on end; the cells
    /// row by row along `z`, each row along `x`, and each list in its order.
    pub open spec fn candidates(&self, center: WorldXz, radius: int) -> Seq<ObjectHandle> {
        let cells = window(self.cell_of_world_spec(center), self.reach(radius));
        self.listed(cells, cells.len())
    }

    /// The cell lists after `h` was put into cell `target`: unchanged if it
    /// was there; else appended to that cell's list and taken out of the list
    /// of the cell it was in.
    pub open spec fn members_after_move(
        &self,
        c: GridCoord,
        h: ObjectHandle,
        target: GridCoord,
    ) -> Seq<ObjectHandle> {
        if self.cell_of(h) == Some(target) {
            self.members(c)
        } else if c == target {
            self.members(c).push(h)
        } else if self.cell_of(h) == Some(c) {
            self.members(c).filter(is_not(h))
        } else {
            self.members(c)
        }
    }

    /// The cell lists after `h` was taken out of the index: the list of the
    /// cell it was in lacks it, in the order that was.
    pub open spec fn members_after_removal(&self, c: GridCoord, h: ObjectHandle) -> Seq<
        ObjectHandle,
    > {
        if self.cell_of(h) == Some(c) {
            self.members(c).filter(is_not(h))
        } else {
            self.members(c)
        }
    }

    /// An empty grid with the given cell edge.
    pub fn new(cell_size: i32) -> (g: SpatialHashGrid)
        ensures
            g.wf(),
            g.cell_size() == cell_size,
            forall|h: ObjectHandle| g.cell_of(h) is None,
            forall|c: GridCoord| g.members(c) == Seq::<ObjectHandle>::empty(),
    {
        let g = SpatialHashGrid { cell_size, cells: HashMap::new(), entity_cell: HashMap::new() };
        assert forall|c: GridCoord, h: ObjectHandle| #[trigger]
            g.members(c).contains(h) <==> g.cell_of(h) == Some(c) by {
            assert(g.members(c) =~= Seq::<ObjectHandle>::empty());
        }
        g
    }

    /// The cell that a point of the ground plane falls in.
    pub fn cell_of_world(&self, world_xz: WorldXz) -> (c: GridCoord)
        ensures
            c == self.cell_of_world_spec(world_xz),
    {
        let edge: i32 = if self.cell_size >= 1 {
            self.cell_size
        } else {
            1
        };
        GridCoord { x: floor_div(world_xz.x, edge), z: floor_div(world_xz.z, edge) }
    }

    /// The cell that the handle is indexed in, if it is indexed.
    pub fn cell_of_handle(&self, handle: ObjectHandle) -> (r: Option<GridCoord>)
        ensures
            r == self.cell_of(handle),
    {
        let key: u64 = handle.to_key();
        match self.entity_cell.get(&key) {
            Some(c) => Some(*c),
            None => None,
        }
    }

    /// The handles listed in a cell, in the order they entered it.
    pub fn cell_members(&self, cell: GridCoord) -> (list: Vec<ObjectHandle>)
        ensures
            list@ == self.members(cell),
    {
        let key: u64 = cell.to_key();
        let mut list: Vec<ObjectHandle> = Vec::new();
        match self.cells.get(&key) {
            Some(found) => {
                let mut i: usize = 0;
                while i < found.len()
                    invariant
                        0 <= i <= found@.len(),
                        list@ == found@.take(i as int),
                    decreases found@.len() - i,
                {
                    list.push(found[i]);
                    proof {
                        found@.lemma_take_succ_push(i as int);
                    }
                    i = i + 1;
                }
                proof {
                    found@.lemma_take_len();
                }
            },
            None => {},
        }
        list
    }

    /// Indexes the handle at a position, or moves it there. Nothing changes
    /// if the handle is indexed in that position's cell already.
    pub fn insert_or_move(&mut self, handle: ObjectHandle, world_pos: WorldPos)
        requires
            old(self).wf(),
        ensures
            final(self).wf(),
            final(self).cell_size() == old(self).cell_size(),
            final(self).cell_of(handle) == Some(
                old(self).cell_of_world_spec(world_pos.xz()),
            ),
            forall|h: ObjectHandle| h != handle ==> final(self).cell_of(h) == old(self).cell_of(h),
            forall|c: GridCoord| #[trigger]
                final(self).members(c) == old(self).members_after_move(
                    c,
                    handle,
                    old(self).cell_of_world_spec(world_pos.xz()),
                ),
    {
        let target: GridCoord = self.cell_of_world(world_pos.xz());
        let key: u64 = handle.to_key();
        let target_key: u64 = target.to_key();
        let previous: Option<GridCoord> = self.entity_cell.insert(key, target);
        assert(previous == old(self).cell_of(handle));
        assert forall|h: ObjectHandle| h != handle implies self.cell_of(h) == old(self).cell_of(
            h,
        ) by {
            if h.key() == handle.key() {
                ObjectHandle::lemma_key_injective(h, handle);
            }
        }
        match previous {
            Some(source) => {
                if source == target {
                    proof {
                        assert(self.entity_cell@ =~= old(self).entity_cell@);
                        assert forall|c: GridCoord| #[trigger] self.members(c).no_duplicates() by {
                            assert(old(self).members(c).no_duplicates());
                        }
                        assert forall|c: GridCoord, h: ObjectHandle| #[trigger]
                            self.members(c).contains(h) <==> self.cell_of(h) == Some(c) by {
                            assert(old(self).members(c).contains(h) <==> old(self).cell_of(h)
                                == Some(c));
                        }
                    }
                    return ;
                }
                let source_key: u64 = source.to_key();
                match self.cells.remove(&source_key) {
                    Some(list) => {
                        let kept: Vec<ObjectHandle> = without(&list, handle);
                        self.cells.insert(source_key, kept);
                    },
                    None => {},
                }
            },
            None => {},
        }
        let ghost mid = self.cells@;
        let mut list: Vec<ObjectHandle> = match self.cells.remove(&target_key) {
            Some(list) => list,
            None => Vec::new(),
        };
        list.push(handle);
        self.cells.insert(target_key, list);

        proof {
            assert forall|c: GridCoord| #[trigger]
                self.members(c) == old(self).members_after_move(c, handle, target) by {
                if c.key() == target_key {
                    GridCoord::lemma_key_injective(c, target);
                }
                match previous {
                    Some(source) => {
                        if c.key() == source.key() {
                            GridCoord::lemma_key_injective(c, source);
                        }
                        assert(old(self).members(source).contains(handle));
                        if c == source {
                            assert(old(self).cells@.contains_key(source.key()));
                        }
                    },
                    None => {},
                }
                if c == target {
                    assert(self.members(c) =~= old(self).members(c).push(handle));
                }
            }
            assert(!old(self).members(target).contains(handle));
            lemma_push_fresh(old(self).members(target), handle);
            match previous {
                Some(source) => {
                    lemma_filter_members(old(self).members(source), is_not(handle));
                },
                None => {},
            }
            assert forall|c: GridCoord| #[trigger] self.members(c).no_duplicates() by {
                assert(self.members(c) == old(self).members_after_move(c, handle, target));
                assert(old(self).members(c).no_duplicates());
            }
            assert forall|c: GridCoord, h: ObjectHandle| #[trigger]
                self.members(c).contains(h) <==> self.cell_of(h) == Some(c) by {
                assert(self.members(c) == old(self).members_after_move(c, handle, target));
                assert(old(self).members(c).contains(h) <==> old(self).cell_of(h) == Some(c));
            }
        }
    }

    /// Takes the handle out of the index. Nothing changes if it is not
    /// indexed.
    pub fn remove(&mut self, handle: ObjectHandle)
        requires
            old(self).wf(),
        ensures
            final(self).wf(),
            final(self).cell_size() == old(self).cell_size(),
            final(self).cell_of(handle) is None,
            forall|h: ObjectHandle| h != handle ==> final(self).cell_of(h) == old(self).cell_of(h),
            forall|c: GridCoord| #[trigger]
                final(self).members(c) == old(self).members_after_removal(c, handle),
    {
        let key: u64 = handle.to_key();
        let previous: Option<GridCoord> = self.entity_cell.remove(&key);
        assert(previous == old(self).cell_of(handle));
        assert forall|h: ObjectHandle| h != handle implies self.cell_of(h) == old(self).cell_of(
            h,
        ) by {
            if h.key() == handle.key() {
                ObjectHandle::lemma_key_injective(h, handle);
            }
        }
        match previous {
            Some(source) => {
                let source_key: u64 = source.to_key();
                match self.cells.remove(&source_key) {
                    Some(list) => {
                        let kept: Vec<ObjectHandle> = without(&list, handle);
                        self.cells.insert(source_key, kept);
                    },
                    None => {},
                }
                proof {
                    assert(old(self).members(source).contains(handle));
                    lemma_filter_members(old(self).members(source), is_not(handle));
                    assert forall|c: GridCoord| #[trigger]
                        self.members(c) == if old(self).cell_of(handle) == Some(c) {
                            old(self).members(c).filter(is_not(handle))
                        } else {
                            old(self).members(c)
                        } by {
                        if c.key() == source.key() {
                            GridCoord::lemma_key_injective(c, source);
                        }
                    }
                    assert forall|c: GridCoord| #[trigger] self.members(c).no_duplicates() by {
                        assert(old(self).members(c).no_duplicates());
                    }
                    assert forall|c: GridCoord, h: ObjectHandle| #[trigger]
                        self.members(c).contains(h) <==> self.cell_of(h) == Some(c) by {
                        assert(old(self).members(c).contains(h) <==> old(self).cell_of(h) == Some(
                            c,
                        ));
                    }
                }
            },
            None => {
                proof {
                    assert(self.entity_cell@ =~= old(self).entity_cell@);
                    assert forall|c: GridCoord| #[trigger] self.members(c).no_duplicates() by {
                        assert(old(self).members(c).no_duplicates());
                    }
                    assert forall|c: GridCoord, h: ObjectHandle| #[trigger]
                        self.members(c).contains(h) <==> self.cell_of(h) == Some(c) by {
                        assert(old(self).members(c).contains(h) <==> old(self).cell_of(h) == Some(
                            c,
                        ));
                    }
                }
            },
        }
    }

    /// The handles that a query around `world_xz` looks at: `candidates`,
    /// the lists of the cells that the radius reaches, on end. Each handle
    /// indexed in the block is among them, once, and no other. Candidates,
    /// not hits: the caller still tests each against its own geometry.
    pub fn query_candidates(&self, world_xz: WorldXz, radius: i32) -> (out: Vec<ObjectHandle>)
        requires
            self.wf(),
        ensures
            out@ == self.candidates(world_xz, radius as int),
            out@.no_duplicates(),
            forall|h: ObjectHandle| #[trigger]
                out@.contains(h) <==> self.is_candidate(h, world_xz, radius as int),
    {
        let edge: i32 = if self.cell_size >= 1 {
            self.cell_size
        } else {
            1
        };
        let r: i32 = if radius > 0 {
            radius
        } else {
            0
        };
        let center: GridCoord = self.cell_of_world(world_xz);
        let reach: i64 = ceil_div(r, edge) as i64;
        let lo_x: i64 = if center.x as i64 - reach < i32::MIN as i64 {
            i32::MIN as i64
        } else {
            center.x as i64 - reach
        };
        let hi_x: i64 = if center.x as i64 + reach > i32::MAX as i64 {
            i32::MAX as i64
        } else {
            center.x as i64 + reach
        };
        let lo_z: i64 = if center.z as i64 - reach < i32::MIN as i64 {
            i32::MIN as i64
        } else {
            center.z as i64 - reach
        };
        let hi_z: i64 = if center.z as i64 + reach > i32::MAX as i64 {
            i32::MAX as i64
        } else {
            center.z as i64 + reach
        };

        let ghost w: int = hi_x - lo_x + 1;
        let ghost h: int = hi_z - lo_z + 1;
        let ghost cells = window(center, reach as int);
        assert(w == clip_len(center.x as int, reach as int));
        assert(h == clip_len(center.z as int, reach as int));
        assert(0 * w == 0);

        let mut out: Vec<ObjectHandle> = Vec::new();
        let mut seen: HashSet<u64> = HashSet::new();

        let mut z: i64 = lo_z;
        while z <= hi_z
            invariant
                self.wf(),
                lo_z <= z <= hi_z + 1,
                i32::MIN <= lo_z <= hi_z <= i32::MAX,
                i32::MIN <= lo_x <= hi_x <= i32::MAX,
                reach >= 0,
                lo_x == clip_lo(center.x as int, reach as int),
                hi_x == clip_hi(center.x as int, reach as int),
                lo_z == clip_lo(center.z as int, reach as int),
                hi_z == clip_hi(center.z as int, reach as int),
                w == hi_x - lo_x + 1,
                h == hi_z - lo_z + 1,
                cells == window(center, reach as int),
                cells.len() == w * h,
                out@ == self.listed(cells, ((z - lo_z) * w) as nat),
                out@.no_duplicates(),
                forall|h: ObjectHandle| seen@.contains(h.key()) <==> #[trigger] out@.contains(h),
                forall|h: ObjectHandle| #[trigger]
                    out@.contains(h) <==> (match self.cell_of(h) {
                        Some(c) => chebyshev(c, center) <= reach && c.z < z,
                        None => false,
                    }),
            decreases hi_z + 1 - z,
        {
            let mut x: i64 = lo_x;
            while x <= hi_x
                invariant
                    self.wf(),
                    lo_x <= x <= hi_x + 1,
                    lo_z <= z <= hi_z,
                    i32::MIN <= lo_z <= hi_z <= i32::MAX,
                    i32::MIN <= lo_x <= hi_x <= i32::MAX,
                    reach >= 0,
                    lo_x == clip_lo(center.x as int, reach as int),
                    hi_x == clip_hi(center.x as int, reach as int),
                    lo_z == clip_lo(center.z as int, reach as int),
                    hi_z == clip_hi(center.z as int, reach as int),
                    w == hi_x - lo_x + 1,
                    h == hi_z - lo_z + 1,
                    cells == window(center, reach as int),
                    cells.len() == w * h,
                    out@ == self.listed(cells, ((z - lo_z) * w + (x - lo_x)) as nat),
                    out@.no_duplicates(),
                    forall|h: ObjectHandle|
                        seen@.contains(h.key()) <==> #[trigger] out@.contains(h),
                    forall|h: ObjectHandle| #[trigger]
                        out@.contains(h) <==> (match self.cell_of(h) {
                            Some(c) => chebyshev(c, center) <= reach && (c.z < z || (c.z == z
                                && c.x < x)),
                            None => false,
                        }),
                decreases hi_x + 1 - x,
            {
                let cell: GridCoord = GridCoord { x: x as i32, z: z as i32 };
                let cell_key: u64 = cell.to_key();
                let ghost k: int = (z - lo_z) * w + (x - lo_x);
                let ghost so_far = out@;
                proof {
                    lemma_cell_number(w, h, x - lo_x, z - lo_z);
                    assert(cells[k] == cell);
                    assert(self.listed(cells, (k + 1) as nat) == so_far + self.members(cell));
                }
                match self.cells.get(&cell_key) {
                    Some(list) => {
                        assert(list@ == self.members(cell));
                        let mut j: usize = 0;
                        while j < list.len()
                            invariant
                                self.wf(),
                                0 <= j <= list@.len(),
                                list@ == self.members(cell),
                                cell == (GridCoord { x: x as i32, z: z as i32 }),
                                lo_x <= x <= hi_x,
                                lo_z <= z <= hi_z,
                                i32::MIN <= lo_z <= hi_z <= i32::MAX,
                                i32::MIN <= lo_x <= hi_x <= i32::MAX,
                                reach >= 0,
                                lo_x == clip_lo(center.x as int, reach as int),
                                hi_x == clip_hi(center.x as int, reach as int),
                                lo_z == clip_lo(center.z as int, reach as int),
                                hi_z == clip_hi(center.z as int, reach as int),
                                out@ == so_far + list@.take(j as int),
                                out@.no_duplicates(),
                                forall|h: ObjectHandle|
                                    seen@.contains(h.key()) <==> #[trigger] out@.contains(h),
                                forall|h: ObjectHandle| #[trigger]
                                    out@.contains(h) <==> (match self.cell_of(h) {
                                        Some(c) => chebyshev(c, center) <= reach && (c.z < z || (c.z
                                            == z && c.x < x)),
                                        None => false,
                                    }) || list@.take(j as int).contains(h),
                            decreases list@.len() - j,
                        {
                            let e: ObjectHandle = list[j];
                            let ghost before = out@;
                            let ghost seen_before = seen@;
                            proof {
                                // A handle is listed once, in one cell: it is new here.
                                assert(self.members(cell).contains(e));
                                assert(self.members(cell).contains(e) <==> self.cell_of(e) == Some(
                                    cell,
                                ));
                                assert(self.members(cell).no_duplicates());
                                if list@.take(j as int).contains(e) {
                                    let i = choose|i: int|
                                        0 <= i < j && list@.take(j as int)[i] == e;
                                    assert(list@[i] == list@[j as int]);
                                }
                                assert(self.cell_of(e) == Some(cell));
                                assert(before.contains(e) <==> (match self.cell_of(e) {
                                    Some(c) => chebyshev(c, center) <= reach && (c.z < z || (c.z
                                        == z && c.x < x)),
                                    None => false,
                                }) || list@.take(j as int).contains(e));
                                assert(!before.contains(e));
                            }
                            let fresh: bool = seen.insert(e.to_key());
                            assert(fresh);
                            if fresh {
                                out.push(e);
                            }
                            proof {
                                assert(out@ =~= so_far + list@.take(j + 1));
                                list@.lemma_take_succ_push(j as int);
                                let taken = list@.take(j as int);
                                lemma_contains_last(taken.push(e), e);
                                if fresh {
                                    lemma_push_fresh(before, e);
                                }
                                assert forall|h: ObjectHandle|
                                    seen@.contains(h.key()) <==> #[trigger] out@.contains(h) by {
                                    if h.key() == e.key() {
                                        ObjectHandle::lemma_key_injective(h, e);
                                    }
                                    assert(seen_before.contains(h.key()) <==> before.contains(h));
                                }
                                assert forall|h: ObjectHandle| #[trigger]
                                    out@.contains(h) <==> (match self.cell_of(h) {
                                        Some(c) => chebyshev(c, center) <= reach && (c.z < z || (c.z
                                            == z && c.x < x)),
                                        None => false,
                                    }) || list@.take(j + 1).contains(h) by {
                                    assert(taken.push(e).drop_last() =~= taken);
                                    lemma_contains_last(taken.push(e), h);
                                    assert(before.contains(h) <==> (match self.cell_of(h) {
                                        Some(c) => chebyshev(c, center) <= reach && (c.z < z || (c.z
                                            == z && c.x < x)),
                                        None => false,
                                    }) || taken.contains(h));
                                    if !fresh && h == e {
                                        assert(seen_before.contains(e.key()));
                                        assert(before.contains(e));
                                    }
                                }
                            }
                            j = j + 1;
                        }
                        proof {
                            list@.lemma_take_len();
                        }
                    },
                    None => {
                        assert(self.members(cell) =~= Seq::<ObjectHandle>::empty());
                        assert(so_far + self.members(cell) =~= so_far);
                    },
                }
                proof {
                    assert forall|h: ObjectHandle| #[trigger]
                        out@.contains(h) <==> (match self.cell_of(h) {
                            Some(c) => chebyshev(c, center) <= reach && (c.z < z || (c.z == z
                                && c.x < x + 1)),
                            None => false,
                        }) by {
                        assert(self.members(cell).contains(h) <==> self.cell_of(h) == Some(cell));
                    }
                }
                x = x + 1;
            }
            proof {
                assert((z - lo_z) * w + w == (z + 1 - lo_z) * w) by (nonlinear_arith);
            }
            z = z + 1;
        }
        proof {
            assert((hi_z + 1 - lo_z) * w == w * h) by (nonlinear_arith)
                requires
                    h == hi_z - lo_z + 1,
            ;
        }
        out
    }
}

} // verus!
