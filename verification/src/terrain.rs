//! The terrain world: its configuration and the chunk streaming engine.

use vstd::prelude::*;
use std::collections::HashSet;
use std::collections::VecDeque;
use crate::coords::chebyshev;
use crate::coords::clip_len;
use crate::coords::clip_lo;
use crate::coords::window;
use crate::coords::GridCoord;
use crate::seqs::lemma_filter_take_step;
use crate::seqs::lemma_push_fresh;
use crate::seqs::lemma_remove_distinct;
use crate::stream_laws::lemma_drained_settled;
use crate::stream_laws::lemma_retargeted_settled;
use crate::stream_laws::lemma_tick_announces;
use crate::units::floor_div;
use crate::units::floor_div_spec;
use crate::units::WorldOffset;
use crate::units::WorldXz;
use crate::units::lemma_cell_number;

verus! {

broadcast use vstd::std_specs::hash::group_hash_axioms;

/// Largest chunk edge, in tiles, whose mesh still indexes its vertices with
/// `u32`.
pub const MAX_CHUNK_SIZE: i32 = 32767;

/// How the terrain is cut into chunks and streamed. Fixed once the world is
/// made.
#[derive(Clone, Copy, Debug, PartialEq, Eq, Structural)]
pub struct TerrainConfig {
    pub seed: u64,
    /// Tiles per chunk edge.
    pub chunk_size: i32,
    /// Fixed-point units per tile edge.
    pub tile_size: i32,
    /// Chunks kept loaded around the viewer's chunk, in every direction.
    pub view_distance_chunks: i32,
    /// Most despawns, and most spawns, handed out by one tick.
    pub chunk_spawn_budget_per_frame: usize,
    /// Frequency of the first noise octave, in millionths of a cycle per
    /// world unit; each further octave doubles it.
    pub noise_base_frequency: i32,
    /// Octaves of noise that a height is blended from.
    pub noise_octaves: u32,
    /// Weight of an octave relative to the one before it, in millionths.
    pub noise_persistence: i32,
    /// Height, in fixed-point units, that a noise value of one stands for.
    pub height_scale: i32,
}

impl Default for TerrainConfig {
    /// Chunks of 32 tiles of two world units, streamed eight chunks around
    /// the viewer at 32 a tick; heights of up to eight world units from four
    /// octaves of noise.
    fn default() -> (c: TerrainConfig)
        ensures
            c == (TerrainConfig {
                seed: 12345,
                chunk_size: 32,
                tile_size: 2000,
                view_distance_chunks: 8,
                chunk_spawn_budget_per_frame: 32,
                noise_base_frequency: 20_000,
                noise_octaves: 4,
                noise_persistence: 500_000,
                height_scale: 8000,
            }),
            c.valid(),
    {
        TerrainConfig {
            seed: 12345,
            chunk_size: 32,
            tile_size: 2000,
            view_distance_chunks: 8,
            chunk_spawn_budget_per_frame: 32,
            noise_base_frequency: 20_000,
            noise_octaves: 4,
            noise_persistence: 500_000,
            height_scale: 8000,
        }
    }
}

impl TerrainConfig {
    /// A configuration the world can run on: a positive chunk and tile size
    /// whose product, the chunk's edge in fixed-point units, is a coordinate;
    /// a view distance that is not negative; a budget of at least one.
    pub open spec fn valid(&self) -> bool {
        &&& 1 <= self.chunk_size <= MAX_CHUNK_SIZE
        &&& 1 <= self.tile_size
        &&& self.chunk_size * self.tile_size <= i32::MAX
        &&& 0 <= self.view_distance_chunks
        &&& 1 <= self.chunk_spawn_budget_per_frame
    }

    pub fn is_valid(&self) -> (b: bool)
        ensures
            b == self.valid(),
    {
        if self.chunk_size < 1 || self.chunk_size > MAX_CHUNK_SIZE || self.tile_size < 1 {
            return false;
        }
        assert(self.chunk_size * self.tile_size <= 32767 * 0x7fff_ffff) by (nonlinear_arith)
            requires
                1 <= self.chunk_size <= 32767,
                1 <= self.tile_size <= 0x7fff_ffff,
        ;
        let edge: i64 = self.chunk_size as i64 * self.tile_size as i64;
        edge <= i32::MAX as i64 && 0 <= self.view_distance_chunks && 1
            <= self.chunk_spawn_budget_per_frame
    }

    /// Edge of one chunk in fixed-point units.
    pub open spec fn chunk_world_size_spec(&self) -> int {
        self.chunk_size * self.tile_size
    }

    pub fn chunk_world_size(&self) -> (s: i32)
        requires
            self.valid(),
        ensures
            s == self.chunk_world_size_spec(),
            s >= 1,
    {
        assert(self.chunk_size * self.tile_size >= 1) by (nonlinear_arith)
            requires
                self.chunk_size >= 1,
                self.tile_size >= 1,
        ;
        self.chunk_size * self.tile_size
    }
}

/// What one tick asks of the host.
#[derive(Clone, Copy, Debug, PartialEq, Eq, Hash, Structural)]
pub enum TerrainAction {
    SpawnChunk(GridCoord),
    DespawnChunk(GridCoord),
}

/// The streaming engine's state, as contracts see it.
pub struct StreamState {
    /// Chunks that the host holds, oldest first; none twice.
    pub loaded: Seq<GridCoord>,
    /// The viewer's chunk when the targets were last worked out.
    pub last_viewer_chunk: Option<GridCoord>,
    /// Chunks waiting to be spawned, next first.
    pub pending_spawn: Seq<GridCoord>,
    /// Chunks waiting to be despawned, next first.
    pub pending_despawn: Seq<GridCoord>,
}

/// "Is not among `loaded`."
pub open spec fn is_unloaded(loaded: Seq<GridCoord>) -> spec_fn(GridCoord) -> bool {
    |c: GridCoord| !loaded.contains(c)
}

/// "Is not desired around `center`."
pub open spec fn is_undesired(center: GridCoord, reach: int) -> spec_fn(GridCoord) -> bool {
    |c: GridCoord| chebyshev(c, center) > reach
}

/// The state after the targets were worked out anew for a viewer in chunk
/// `center`: to spawn, what is desired and not loaded; to despawn, what is
/// loaded and not desired.
pub open spec fn retargeted(s: StreamState, center: GridCoord, reach: int) -> StreamState {
    StreamState {
        loaded: s.loaded,
        last_viewer_chunk: Some(center),
        pending_spawn: window(center, reach).filter(is_unloaded(s.loaded)),
        pending_despawn: s.loaded.filter(is_undesired(center, reach)),
    }
}

/// `loaded` after the chunks of `batch` were despawned in turn.
pub open spec fn despawned(loaded: Seq<GridCoord>, batch: Seq<GridCoord>) -> Seq<GridCoord>
    decreases batch.len(),
{
    if batch.len() == 0 {
        loaded
    } else {
        despawned(loaded, batch.drop_last()).remove_value(batch.last())
    }
}

/// The despawns that `batch` gives rise to: one for each of its chunks that is
/// loaded when its turn comes.
pub open spec fn despawn_actions(loaded: Seq<GridCoord>, batch: Seq<GridCoord>) -> Seq<
    TerrainAction,
>
    decreases batch.len(),
{
    if batch.len() == 0 {
        Seq::empty()
    } else {
        let before = despawn_actions(loaded, batch.drop_last());
        if despawned(loaded, batch.drop_last()).contains(batch.last()) {
            before.push(TerrainAction::DespawnChunk(batch.last()))
        } else {
            before
        }
    }
}

/// `loaded` after the chunks of `batch` were spawned in turn; one that is
/// loaded already is passed over.
pub open spec fn spawned(loaded: Seq<GridCoord>, batch: Seq<GridCoord>) -> Seq<GridCoord>
    decreases batch.len(),
{
    if batch.len() == 0 {
        loaded
    } else {
        let before = spawned(loaded, batch.drop_last());
        if before.contains(batch.last()) {
            before
        } else {
            before.push(batch.last())
        }
    }
}

/// The spawns that `batch` gives rise to: one for each of its chunks that is
/// not loaded when its turn comes.
pub open spec fn spawn_actions(loaded: Seq<GridCoord>, batch: Seq<GridCoord>) -> Seq<
    TerrainAction,
>
    decreases batch.len(),
{
    if batch.len() == 0 {
        Seq::empty()
    } else {
        let before = spawn_actions(loaded, batch.drop_last());
        if spawned(loaded, batch.drop_last()).contains(batch.last()) {
            before
        } else {
            before.push(TerrainAction::SpawnChunk(batch.last()))
        }
    }
}

/// How many entries of a queue one tick takes.
pub open spec fn batch_len(queue: Seq<GridCoord>, budget: int) -> int {
    if queue.len() <= budget {
        queue.len() as int
    } else {
        budget
    }
}

/// What one tick does once the targets stand: up to `budget` chunks leave the
/// despawn queue, and after them up to `budget` chunks leave the spawn queue.
/// The state after it, and the actions it hands out, despawns first.
pub open spec fn drained(t: StreamState, budget: int) -> (StreamState, Seq<TerrainAction>) {
    let nd = batch_len(t.pending_despawn, budget);
    let ns = batch_len(t.pending_spawn, budget);
    let kept = despawned(t.loaded, t.pending_despawn.take(nd));
    (
        StreamState {
            loaded: spawned(kept, t.pending_spawn.take(ns)),
            last_viewer_chunk: t.last_viewer_chunk,
            pending_spawn: t.pending_spawn.skip(ns),
            pending_despawn: t.pending_despawn.skip(nd),
        },
        despawn_actions(t.loaded, t.pending_despawn.take(nd)) + spawn_actions(
            kept,
            t.pending_spawn.take(ns),
        ),
    )
}

/// One tick with the viewer in chunk `center`. The targets are worked out
/// anew only if the viewer's chunk has changed since they last were; then the
/// queues are drained.
pub open spec fn ticked(s: StreamState, center: GridCoord, reach: int, budget: int) -> (
    StreamState,
    Seq<TerrainAction>,
) {
    if s.last_viewer_chunk == Some(center) {
        drained(s, budget)
    } else {
        drained(retargeted(s, center, reach), budget)
    }
}

/// What the engine keeps between ticks while its targets stand for the
/// chunk `center`: nothing is loaded or queued twice; what waits to be
/// spawned is desired and not loaded; what waits to be despawned is loaded
/// and not desired.
pub open spec fn settled(t: StreamState, center: GridCoord, reach: int) -> bool {
    &&& t.last_viewer_chunk == Some(center)
    &&& t.loaded.no_duplicates()
    &&& t.pending_spawn.no_duplicates()
    &&& t.pending_despawn.no_duplicates()
    &&& forall|i: int|
        0 <= i < t.pending_spawn.len() ==> chebyshev(#[trigger] t.pending_spawn[i], center)
            <= reach && !t.loaded.contains(t.pending_spawn[i])
    &&& forall|i: int|
        0 <= i < t.pending_despawn.len() ==> chebyshev(#[trigger] t.pending_despawn[i], center)
            > reach && t.loaded.contains(t.pending_despawn[i])
}

/// The state of an engine between ticks: settled for the chunk that its
/// targets stand for; or, before the first tick, with nothing queued.
pub open spec fn in_order(s: StreamState, reach: int) -> bool {
    match s.last_viewer_chunk {
        Some(center) => settled(s, center, reach),
        None => s.loaded.no_duplicates() && s.pending_spawn.len() == 0 && s.pending_despawn.len()
            == 0,
    }
}

/// Despawning leaves no chunk loaded twice.
pub proof fn lemma_despawned_keeps_distinct(loaded: Seq<GridCoord>, batch: Seq<GridCoord>)
    requires
        loaded.no_duplicates(),
    ensures
        despawned(loaded, batch).no_duplicates(),
        forall|c: GridCoord| #[trigger]
            despawned(loaded, batch).contains(c) <==> loaded.contains(c) && !batch.contains(c),
    decreases batch.len(),
{
    if batch.len() > 0 {
        let rest = batch.drop_last();
        let last = batch.last();
        lemma_despawned_keeps_distinct(loaded, rest);
        let before = despawned(loaded, rest);
        before.index_of_first_ensures(last);
        assert forall|c: GridCoord| #[trigger]
            before.remove_value(last).contains(c) <==> loaded.contains(c) && !batch.contains(
                c,
            ) by {
            assert(batch.contains(c) <==> rest.contains(c) || c == last) by {
                if rest.contains(c) {
                    let j = choose|j: int| 0 <= j < rest.len() && rest[j] == c;
                    assert(batch[j] == c);
                }
                if c == last {
                    assert(batch[batch.len() - 1] == c);
                }
                if batch.contains(c) {
                    let j = choose|j: int| 0 <= j < batch.len() && batch[j] == c;
                    if j < batch.len() - 1 {
                        assert(rest[j] == c);
                    }
                }
            }
            match before.index_of_first(last) {
                Some(at) => {
                    let after = before.remove(at);
                    if after.contains(c) {
                        let j = choose|j: int| 0 <= j < after.len() && after[j] == c;
                        if j < at {
                            assert(before[j] == c);
                        } else {
                            assert(before[j + 1] == c);
                        }
                    }
                    if before.contains(c) && c != last {
                        let j = choose|j: int| 0 <= j < before.len() && before[j] == c;
                        if j < at {
                            assert(after[j] == c);
                        } else {
                            assert(after[j - 1] == c);
                        }
                    }
                },
                None => {},
            }
        }
        match before.index_of_first(last) {
            Some(at) => {
                before.remove_ensures(at);
            },
            None => {},
        }
    }
}

/// Spawning leaves no chunk loaded twice.
pub proof fn lemma_spawned_keeps_distinct(loaded: Seq<GridCoord>, batch: Seq<GridCoord>)
    requires
        loaded.no_duplicates(),
    ensures
        spawned(loaded, batch).no_duplicates(),
        forall|c: GridCoord| #[trigger]
            spawned(loaded, batch).contains(c) <==> loaded.contains(c) || batch.contains(c),
    decreases batch.len(),
{
    if batch.len() > 0 {
        let rest = batch.drop_last();
        let last = batch.last();
        lemma_spawned_keeps_distinct(loaded, rest);
        let before = spawned(loaded, rest);
        assert forall|c: GridCoord| #[trigger]
            spawned(loaded, batch).contains(c) <==> loaded.contains(c) || batch.contains(c) by {
            assert(batch.contains(c) <==> rest.contains(c) || c == last) by {
                if rest.contains(c) {
                    let j = choose|j: int| 0 <= j < rest.len() && rest[j] == c;
                    assert(batch[j] == c);
                }
                if c == last {
                    assert(batch[batch.len() - 1] == c);
                }
                if batch.contains(c) {
                    let j = choose|j: int| 0 <= j < batch.len() && batch[j] == c;
                    if j < batch.len() - 1 {
                        assert(rest[j] == c);
                    }
                }
            }
            if !before.contains(last) {
                let after = before.push(last);
                assert(after[before.len() as int] == last);
                if before.contains(c) {
                    let j = choose|j: int| 0 <= j < before.len() && before[j] == c;
                    assert(after[j] == c);
                }
            }
        }
    }
}

/// A batch one entry longer ends in that entry.
proof fn lemma_batch_step(q: Seq<GridCoord>, k: int)
    requires
        0 <= k < q.len(),
    ensures
        q.take(k + 1).drop_last() == q.take(k),
        q.take(k + 1).last() == q[k],
        q.take(k + 1).len() == k + 1,
{
    assert(q.take(k + 1).drop_last() =~= q.take(k));
}

/// What the actions of a tick around `center` say of the chunks, `before`
/// the tick against `after` it: a spawn names a chunk that is desired, was
/// not loaded and now is; a despawn names a chunk that is not desired, was
/// loaded and no longer is.
pub open spec fn announced(
    before: StreamState,
    after: StreamState,
    actions: Seq<TerrainAction>,
    center: GridCoord,
    reach: int,
) -> bool {
    &&& forall|c: GridCoord| #[trigger]
        actions.contains(TerrainAction::SpawnChunk(c)) ==> chebyshev(c, center) <= reach
            && !before.loaded.contains(c) && after.loaded.contains(c)
    &&& forall|c: GridCoord| #[trigger]
        actions.contains(TerrainAction::DespawnChunk(c)) ==> chebyshev(c, center) > reach
            && before.loaded.contains(c) && !after.loaded.contains(c)
}

/// Whether `c` is among `list`, and where it comes first.
fn position_of(list: &Vec<GridCoord>, c: GridCoord) -> (r: Option<usize>)
    ensures
        match r {
            Some(i) => list@.index_of_first(c) == Some(i as int) && i < list@.len() && list@[i as int]
                == c,
            None => list@.index_of_first(c) is None,
        },
        r is Some <==> list@.contains(c),
{
    let mut i: usize = 0;
    while i < list.len()
        invariant
            0 <= i <= list@.len(),
            forall|j: int| 0 <= j < i ==> list@[j] != c,
        decreases list@.len() - i,
    {
        if list[i] == c {
            proof {
                assert(list@.contains(c));
                list@.index_of_first_ensures(c);
                let first = list@.index_of_first(c).unwrap();
                assert(list@[first] == c);
            }
            return Some(i);
        }
        i = i + 1;
    }
    proof {
        list@.index_of_first_ensures(c);
    }
    None
}

/// The terrain of one world: its configuration and what the streaming engine
/// tracks.
pub struct TerrainWorld {
    config: TerrainConfig,
    /// The chunks that the host holds, by key.
    loaded: HashSet<u64>,
    /// The same chunks in the order they were spawned: walking a hash set
    /// has no order to go by.
    loaded_order: Vec<GridCoord>,
    last_viewer_chunk: Option<GridCoord>,
    pending_spawn: VecDeque<GridCoord>,
    pending_despawn: VecDeque<GridCoord>,
    viewer_world_xz: WorldXz,
}

impl View for TerrainWorld {
    type V = StreamState;

    closed spec fn view(&self) -> StreamState {
        StreamState {
            loaded: self.loaded_order@,
            last_viewer_chunk: self.last_viewer_chunk,
            pending_spawn: self.pending_spawn@,
            pending_despawn: self.pending_despawn@,
        }
    }
}

impl TerrainWorld {
    pub closed spec fn config_spec(&self) -> TerrainConfig {
        self.config
    }

    /// The configuration that the world was made with.
    #[verifier::when_used_as_spec(config_spec)]
    pub fn config(&self) -> (c: TerrainConfig)
        ensures
            c == self.config(),
    {
        self.config
    }

    pub closed spec fn viewer_spec(&self) -> WorldXz {
        self.viewer_world_xz
    }

    /// Where the viewer was last said to be.
    #[verifier::when_used_as_spec(viewer_spec)]
    pub fn viewer(&self) -> (v: WorldXz)
        ensures
            v == self.viewer(),
    {
        self.viewer_world_xz
    }

    /// The set of loaded chunks and their list hold the same chunks.
    pub closed spec fn index_agrees(&self) -> bool {
        forall|c: GridCoord| self.loaded@.contains(c.key()) <==> #[trigger] self.loaded_order@.contains(c)
    }

    /// The configuration is valid; no chunk is loaded twice; and the queues
    /// are in order (`in_order`): what waits to be spawned is desired and not
    /// loaded, what waits to be despawned is loaded and not desired.
    pub open spec fn wf(&self) -> bool {
        &&& self.config().valid()
        &&& self@.loaded.no_duplicates()
        &&& self.index_agrees()
        &&& in_order(self@, self.config().view_distance_chunks as int)
    }

    /// The chunk that holds the viewer.
    pub open spec fn viewer_chunk_spec(&self) -> GridCoord {
        GridCoord {
            x: floor_div_spec(
                self.viewer().x as int,
                self.config().chunk_world_size_spec(),
            ) as i32,
            z: floor_div_spec(
                self.viewer().z as int,
                self.config().chunk_world_size_spec(),
            ) as i32,
        }
    }

    /// A world with nothing loaded and the viewer at the origin.
    pub fn new(config: TerrainConfig) -> (w: TerrainWorld)
        requires
            config.valid(),
        ensures
            w.wf(),
            w.config() == config,
            w.viewer() == (WorldXz { x: 0, z: 0 }),
            w@ == (StreamState {
                loaded: Seq::empty(),
                last_viewer_chunk: None,
                pending_spawn: Seq::empty(),
                pending_despawn: Seq::empty(),
            }),
    {
        TerrainWorld {
            config,
            loaded: HashSet::new(),
            loaded_order: Vec::new(),
            last_viewer_chunk: None,
            pending_spawn: VecDeque::new(),
            pending_despawn: VecDeque::new(),
            viewer_world_xz: WorldXz { x: 0, z: 0 },
        }
    }

    /// Says where the viewer is; the next tick goes by it.
    pub fn set_viewer_world_xz(&mut self, world_xz: WorldXz)
        ensures
            final(self).viewer() == world_xz,
            final(self).config() == old(self).config(),
            final(self)@ == old(self)@,
            old(self).wf() ==> final(self).wf(),
    {
        self.viewer_world_xz = world_xz;
    }

    /// The chunk that holds the viewer.
    pub fn viewer_chunk(&self) -> (c: GridCoord)
        requires
            self.config().valid(),
        ensures
            c == self.viewer_chunk_spec(),
    {
        let size: i32 = self.config.chunk_world_size();
        GridCoord {
            x: floor_div(self.viewer_world_xz.x, size),
            z: floor_div(self.viewer_world_xz.z, size),
        }
    }

    /// Works the targets out anew around `center`.
    fn retarget(&mut self, center: GridCoord)
        requires
            old(self).config().valid(),
            old(self).index_agrees(),
        ensures
            final(self).index_agrees(),
            final(self)@ == retargeted(
                old(self)@,
                center,
                old(self).config().view_distance_chunks as int,
            ),
            final(self).config() == old(self).config(),
            final(self).viewer() == old(self).viewer(),
    {
        let reach: i64 = self.config.view_distance_chunks as i64;
        let lo_x: i64 = if center.x as i64 - reach < i32::MIN as i64 {
            i32::MIN as i64
        } else {
            center.x as i64 - reach
        };
        let hi_x: i64 = if center.x as i64 + reach > i32::MAX as i64 {
            i32::MAX as i64
        } else {
            center.x as i64 + reach
        };
        let lo_z: i64 = if center.z as i64 - reach < i32::MIN as i64 {
            i32::MIN as i64
        } else {
            center.z as i64 - reach
        };
        let hi_z: i64 = if center.z as i64 + reach > i32::MAX as i64 {
            i32::MAX as i64
        } else {
            center.z as i64 + reach
        };
        let ghost w: int = hi_x - lo_x + 1;
        let ghost h: int = hi_z - lo_z + 1;
        let ghost win = window(center, reach as int);
        let ghost unloaded = is_unloaded(self.loaded_order@);
        let ghost undesired = is_undesired(center, reach as int);
        assert(w == clip_len(center.x as int, reach as int));
        assert(h == clip_len(center.z as int, reach as int));

        self.last_viewer_chunk = Some(center);
        self.pending_spawn.clear();
        proof {
            win.take(0).lemma_filter_len(unloaded);
            assert(0 * w == 0);
        }
        let mut z: i64 = lo_z;
        while z <= hi_z
            invariant
                lo_z <= z <= hi_z + 1,
                i32::MIN <= lo_z <= hi_z <= i32::MAX,
                i32::MIN <= lo_x <= hi_x <= i32::MAX,
                w == hi_x - lo_x + 1,
                h == hi_z - lo_z + 1,
                win == window(center, reach as int),
                win.len() == w * h,
                lo_x == clip_lo(center.x as int, reach as int),
                lo_z == clip_lo(center.z as int, reach as int),
                w == clip_len(center.x as int, reach as int),
                unloaded == is_unloaded(self.loaded_order@),
                self.pending_spawn@ == win.take((z - lo_z) * w).filter(unloaded),
                self.loaded_order@ == old(self).loaded_order@,
                self.index_agrees(),
                self.config == old(self).config,
                self.viewer_world_xz == old(self).viewer_world_xz,
                self.last_viewer_chunk == Some(center),
            decreases hi_z + 1 - z,
        {
            let mut x: i64 = lo_x;
            while x <= hi_x
                invariant
                    lo_x <= x <= hi_x + 1,
                    lo_z <= z <= hi_z,
                    i32::MIN <= lo_z <= hi_z <= i32::MAX,
                    i32::MIN <= lo_x <= hi_x <= i32::MAX,
                    w == hi_x - lo_x + 1,
                    h == hi_z - lo_z + 1,
                    win == window(center, reach as int),
                    win.len() == w * h,
                    lo_x == clip_lo(center.x as int, reach as int),
                    lo_z == clip_lo(center.z as int, reach as int),
                    w == clip_len(center.x as int, reach as int),
                    unloaded == is_unloaded(self.loaded_order@),
                    self.pending_spawn@ == win.take((z - lo_z) * w + (x - lo_x)).filter(unloaded),
                    self.loaded_order@ == old(self).loaded_order@,
                    self.index_agrees(),
                    self.config == old(self).config,
                    self.viewer_world_xz == old(self).viewer_world_xz,
                    self.last_viewer_chunk == Some(center),
                decreases hi_x + 1 - x,
            {
                let c: GridCoord = GridCoord { x: x as i32, z: z as i32 };
                proof {
                    let k = (z - lo_z) * w + (x - lo_x);
                    lemma_cell_number(w, h, x - lo_x, z - lo_z);
                    assert(win[k] == c);
                    lemma_filter_take_step(win, k, unloaded);
                }
                let key: u64 = c.to_key();
                if !self.loaded.contains(&key) {
                    self.pending_spawn.push_back(c);
                }
                x = x + 1;
            }
            proof {
                assert((z - lo_z) * w + w == (z + 1 - lo_z) * w) by (nonlinear_arith);
            }
            z = z + 1;
        }
        proof {
            assert((hi_z + 1 - lo_z) * w == w * h) by (nonlinear_arith)
                requires
                    h == hi_z - lo_z + 1,
            ;
            win.lemma_take_len();
        }

        self.pending_despawn.clear();
        proof {
            self.loaded_order@.take(0).lemma_filter_len(undesired);
        }
        let mut i: usize = 0;
        while i < self.loaded_order.len()
            invariant
                0 <= i <= self.loaded_order@.len(),
                undesired == is_undesired(center, reach as int),
                reach == self.config.view_distance_chunks,
                self.pending_despawn@ == self.loaded_order@.take(i as int).filter(undesired),
                self.pending_spawn@ == win.filter(unloaded),
                self.loaded_order@ == old(self).loaded_order@,
                self.index_agrees(),
                self.config == old(self).config,
                self.viewer_world_xz == old(self).viewer_world_xz,
                self.last_viewer_chunk == Some(center),
            decreases self.loaded_order@.len() - i,
        {
            let c: GridCoord = self.loaded_order[i];
            proof {
                lemma_filter_take_step(self.loaded_order@, i as int, undesired);
            }
            if !c.within(center, self.config.view_distance_chunks) {
                self.pending_despawn.push_back(c);
            }
            i = i + 1;
        }
        proof {
            self.loaded_order@.lemma_take_len();
        }
    }

    /// Takes up to a budget of chunks from the despawn queue and drops those
    /// of them that are loaded.
    fn drain_despawn(&mut self, actions: &mut Vec<TerrainAction>)
        requires
            old(actions)@.len() == 0,
            old(self)@.loaded.no_duplicates(),
            old(self).index_agrees(),
        ensures
            final(self).index_agrees(),
            final(self)@.loaded.no_duplicates(),
            ({
                let n = batch_len(
                    old(self)@.pending_despawn,
                    old(self).config().chunk_spawn_budget_per_frame as int,
                );
                let batch = old(self)@.pending_despawn.take(n);
                &&& final(self)@.loaded == despawned(old(self)@.loaded, batch)
                &&& final(self)@.pending_despawn == old(self)@.pending_despawn.skip(n)
                &&& final(actions)@ == despawn_actions(old(self)@.loaded, batch)
            }),
            final(self)@.pending_spawn == old(self)@.pending_spawn,
            final(self)@.last_viewer_chunk == old(self)@.last_viewer_chunk,
            final(self).config() == old(self).config(),
            final(self).viewer() == old(self).viewer(),
    {
        let ghost queue = self.pending_despawn@;
        let ghost loaded = self.loaded_order@;
        let n: usize = if self.pending_despawn.len() <= self.config.chunk_spawn_budget_per_frame {
            self.pending_despawn.len()
        } else {
            self.config.chunk_spawn_budget_per_frame
        };
        let mut i: usize = 0;
        assert(queue.skip(0) =~= queue);
        while i < n
            invariant
                0 <= i <= n <= queue.len(),
                self.pending_despawn@ == queue.skip(i as int),
                self.loaded_order@ == despawned(loaded, queue.take(i as int)),
                self.loaded_order@.no_duplicates(),
                self.index_agrees(),
                actions@ == despawn_actions(loaded, queue.take(i as int)),
                self.pending_spawn@ == old(self).pending_spawn@,
                self.last_viewer_chunk == old(self).last_viewer_chunk,
                self.config == old(self).config,
                self.viewer_world_xz == old(self).viewer_world_xz,
            decreases n - i,
        {
            let popped: Option<GridCoord> = self.pending_despawn.pop_front();
            proof {
                lemma_batch_step(queue, i as int);
                assert(queue.skip(i as int).subrange(1, queue.skip(i as int).len() as int)
                    =~= queue.skip(i + 1));
            }
            match popped {
                Some(c) => {
                    match position_of(&self.loaded_order, c) {
                        Some(at) => {
                            let ghost listed = self.loaded_order@;
                            let ghost indexed = self.loaded@;
                            let key: u64 = c.to_key();
                            self.loaded.remove(&key);
                            self.loaded_order.remove(at);
                            actions.push(TerrainAction::DespawnChunk(c));
                            proof {
                                lemma_remove_distinct(listed, at as int);
                                assert forall|d: GridCoord|
                                    self.loaded@.contains(d.key()) <==> #[trigger] self.loaded_order@.contains(
                                        d,
                                    ) by {
                                    if d.key() == c.key() {
                                        GridCoord::lemma_key_injective(d, c);
                                    }
                                    assert(indexed.contains(d.key()) <==> listed.contains(d));
                                }
                            }
                        },
                        None => {},
                    }
                },
                None => {},
            }
            i = i + 1;
        }
    }

    /// Takes up to a budget of chunks from the spawn queue and loads those of
    /// them that are not loaded yet.
    fn drain_spawn(&mut self, actions: &mut Vec<TerrainAction>)
        requires
            old(self)@.loaded.no_duplicates(),
            old(self).index_agrees(),
        ensures
            final(self).index_agrees(),
            final(self)@.loaded.no_duplicates(),
            ({
                let n = batch_len(
                    old(self)@.pending_spawn,
                    old(self).config().chunk_spawn_budget_per_frame as int,
                );
                let batch = old(self)@.pending_spawn.take(n);
                &&& final(self)@.loaded == spawned(old(self)@.loaded, batch)
                &&& final(self)@.pending_spawn == old(self)@.pending_spawn.skip(n)
                &&& final(actions)@ == old(actions)@ + spawn_actions(old(self)@.loaded, batch)
            }),
            final(self)@.pending_despawn == old(self)@.pending_despawn,
            final(self)@.last_viewer_chunk == old(self)@.last_viewer_chunk,
            final(self).config() == old(self).config(),
            final(self).viewer() == old(self).viewer(),
    {
        let ghost queue = self.pending_spawn@;
        let ghost loaded = self.loaded_order@;
        let ghost before = actions@;
        let n: usize = if self.pending_spawn.len() <= self.config.chunk_spawn_budget_per_frame {
            self.pending_spawn.len()
        } else {
            self.config.chunk_spawn_budget_per_frame
        };
        let mut i: usize = 0;
        assert(queue.skip(0) =~= queue);
        assert(before + Seq::<TerrainAction>::empty() =~= before);
        while i < n
            invariant
                0 <= i <= n <= queue.len(),
                self.pending_spawn@ == queue.skip(i as int),
                self.loaded_order@ == spawned(loaded, queue.take(i as int)),
                self.loaded_order@.no_duplicates(),
                self.index_agrees(),
                actions@ == before + spawn_actions(loaded, queue.take(i as int)),
                self.pending_despawn@ == old(self).pending_despawn@,
                self.last_viewer_chunk == old(self).last_viewer_chunk,
                self.config == old(self).config,
                self.viewer_world_xz == old(self).viewer_world_xz,
            decreases n - i,
        {
            let popped: Option<GridCoord> = self.pending_spawn.pop_front();
            proof {
                lemma_batch_step(queue, i as int);
                assert(queue.skip(i as int).subrange(1, queue.skip(i as int).len() as int)
                    =~= queue.skip(i + 1));
            }
            match popped {
                Some(c) => {
                    let key: u64 = c.to_key();
                    if !self.loaded.contains(&key) {
                        let ghost listed = self.loaded_order@;
                        let ghost indexed = self.loaded@;
                        self.loaded.insert(key);
                        self.loaded_order.push(c);
                        actions.push(TerrainAction::SpawnChunk(c));
                        proof {
                            lemma_push_fresh(listed, c);
                            assert forall|d: GridCoord|
                                self.loaded@.contains(d.key()) <==> #[trigger] self.loaded_order@.contains(
                                    d,
                                ) by {
                                if d.key() == c.key() {
                                    GridCoord::lemma_key_injective(d, c);
                                }
                                assert(indexed.contains(d.key()) <==> listed.contains(d));
                            }
                            let acts = spawn_actions(loaded, queue.take(i as int));
                            assert((before + acts).push(TerrainAction::SpawnChunk(c)) =~= before
                                + acts.push(TerrainAction::SpawnChunk(c)));
                        }
                    }
                },
                None => {},
            }
            i = i + 1;
        }
    }

    /// One tick of the streaming engine: `ticked` says what it does. Every
    /// chunk it announces as spawned is desired, was not loaded and now is;
    /// every chunk it announces as despawned is not desired, was loaded and no
    /// longer is (`announced`).
    pub fn tick(&mut self) -> (actions: Vec<TerrainAction>)
        requires
            old(self).wf(),
        ensures
            (final(self)@, actions@) == ticked(
                old(self)@,
                old(self).viewer_chunk_spec(),
                old(self).config().view_distance_chunks as int,
                old(self).config().chunk_spawn_budget_per_frame as int,
            ),
            final(self).config() == old(self).config(),
            final(self).viewer() == old(self).viewer(),
            final(self).wf(),
            announced(
                old(self)@,
                final(self)@,
                actions@,
                old(self).viewer_chunk_spec(),
                old(self).config().view_distance_chunks as int,
            ),
    {
        let center: GridCoord = self.viewer_chunk();
        let unchanged: bool = match self.last_viewer_chunk {
            Some(last) => last == center,
            None => false,
        };
        if !unchanged {
            self.retarget(center);
        }
        let mut actions: Vec<TerrainAction> = Vec::new();
        self.drain_despawn(&mut actions);
        self.drain_spawn(&mut actions);
        proof {
            let t = if old(self)@.last_viewer_chunk == Some(center) {
                old(self)@
            } else {
                retargeted(old(self)@, center, old(self).config().view_distance_chunks as int)
            };
            let budget = old(self).config().chunk_spawn_budget_per_frame as int;
            let nd = batch_len(t.pending_despawn, budget);
            let ns = batch_len(t.pending_spawn, budget);
            let reach = old(self).config().view_distance_chunks as int;
            if old(self)@.last_viewer_chunk != Some(center) {
                lemma_retargeted_settled(old(self)@, center, reach);
            }
            lemma_drained_settled(t, center, reach, budget);
            lemma_tick_announces(old(self)@, center, reach, budget);
        }
        actions
    }

    /// Whether the host holds the chunk.
    pub fn is_loaded(&self, coord: GridCoord) -> (b: bool)
        requires
            self.wf(),
        ensures
            b == self@.loaded.contains(coord),
    {
        let key: u64 = coord.to_key();
        self.loaded.contains(&key)
    }

    /// Where a chunk's corner of least `x` and `z` lies in the world. Wide
    /// integers, for a far chunk lies outside the range of positions.
    pub fn chunk_origin_world(&self, coord: GridCoord) -> (origin: WorldOffset)
        requires
            self.config().valid(),
        ensures
            origin.x == coord.x * self.config().chunk_world_size_spec(),
            origin.y == 0,
            origin.z == coord.z * self.config().chunk_world_size_spec(),
    {
        let size: i64 = self.config.chunk_world_size() as i64;
        assert(-0x8000_0000 * 0x8000_0000 <= coord.x * size <= 0x8000_0000 * 0x8000_0000)
            by (nonlinear_arith)
            requires
                -0x8000_0000 <= coord.x <= 0x8000_0000,
                1 <= size <= 0x8000_0000,
        ;
        assert(-0x8000_0000 * 0x8000_0000 <= coord.z * size <= 0x8000_0000 * 0x8000_0000)
            by (nonlinear_arith)
            requires
                -0x8000_0000 <= coord.z <= 0x8000_0000,
                1 <= size <= 0x8000_0000,
        ;
        WorldOffset { x: (coord.x as i64) * size, y: 0, z: (coord.z as i64) * size }
    }
}

} // verus!
