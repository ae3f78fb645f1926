//! What holds of the streaming engine over many ticks.

use vstd::prelude::*;
use crate::coords::chebyshev;
use crate::coords::clip_len;
use crate::coords::clip_lo;
use crate::coords::window;
use crate::coords::GridCoord;
use crate::seqs::lemma_contains_last;
use crate::seqs::lemma_filter_members;
use crate::terrain::announced;
use crate::terrain::batch_len;
use crate::terrain::despawn_actions;
use crate::terrain::despawned;
use crate::terrain::drained;
use crate::terrain::in_order;
use crate::terrain::is_undesired;
use crate::terrain::is_unloaded;
use crate::terrain::lemma_despawned_keeps_distinct;
use crate::terrain::lemma_spawned_keeps_distinct;
use crate::terrain::retargeted;
use crate::terrain::settled;
use crate::terrain::spawn_actions;
use crate::terrain::spawned;
use crate::terrain::ticked;
use crate::terrain::StreamState;
use crate::terrain::TerrainAction;
use crate::units::ceil_div_spec;
use crate::units::lemma_cell_number;
use crate::units::lemma_floor_div_bounds;
use crate::units::lemma_floor_div_monotone;
use crate::units::lemma_floor_div_unique;
use vstd::arithmetic::div_mod::lemma_fundamental_div_mod;

verus! {

/// The window around `center` holds exactly the coordinates within Chebyshev
/// distance `reach` of it, each once.
pub proof fn lemma_window_is_desired(center: GridCoord, reach: int)
    requires
        reach >= 0,
    ensures
        window(center, reach).no_duplicates(),
        forall|c: GridCoord| #[trigger]
            window(center, reach).contains(c) <==> chebyshev(c, center) <= reach,
{
    let w = clip_len(center.x as int, reach);
    let h = clip_len(center.z as int, reach);
    let lo_x = clip_lo(center.x as int, reach);
    let lo_z = clip_lo(center.z as int, reach);
    let win = window(center, reach);
    assert(w >= 1 && h >= 1);
    assert(w * h >= 0) by (nonlinear_arith)
        requires
            w >= 1,
            h >= 1,
    ;
    assert forall|k: int| 0 <= k < w * h implies 0 <= k % w < w && 0 <= #[trigger] (k / w) < h by {
        lemma_fundamental_div_mod(k, w);
        lemma_floor_div_bounds(k, w);
        assert(k / w < h) by (nonlinear_arith)
            requires
                (k / w) * w <= k,
                k < w * h,
                w >= 1,
        ;
    }
    assert forall|c: GridCoord| #[trigger] win.contains(c) <==> chebyshev(c, center) <= reach by {
        if win.contains(c) {
            let k = choose|k: int| 0 <= k < win.len() && win[k] == c;
            assert(0 <= k / w < h);
        }
        if chebyshev(c, center) <= reach {
            let k = (c.z - lo_z) * w + (c.x - lo_x);
            lemma_cell_number(w, h, c.x - lo_x, c.z - lo_z);
            assert(win[k] == c);
        }
    }
    assert forall|i: int, j: int| 0 <= i < win.len() && 0 <= j < win.len() && i != j implies win[i]
        != win[j] by {
        lemma_fundamental_div_mod(i, w);
        lemma_fundamental_div_mod(j, w);
        assert(0 <= i / w < h);
        assert(0 <= j / w < h);
        if win[i] == win[j] {
            assert(i % w == j % w);
            assert(i / w == j / w);
        }
    }
}

/// Right after the targets were worked out around `center`, the spawn queue
/// holds each chunk that is desired and not loaded, once, and the despawn
/// queue each chunk that is loaded and not desired, once.
pub proof fn lemma_retargeted_queues(s: StreamState, center: GridCoord, reach: int)
    requires
        reach >= 0,
        s.loaded.no_duplicates(),
    ensures
        ({
            let t = retargeted(s, center, reach);
            &&& t.pending_spawn.no_duplicates()
            &&& t.pending_despawn.no_duplicates()
            &&& forall|c: GridCoord| #[trigger]
                t.pending_spawn.contains(c) <==> chebyshev(c, center) <= reach
                    && !s.loaded.contains(c)
            &&& forall|c: GridCoord| #[trigger]
                t.pending_despawn.contains(c) <==> chebyshev(c, center) > reach
                    && s.loaded.contains(c)
        }),
{
    lemma_window_is_desired(center, reach);
    lemma_filter_members(window(center, reach), is_unloaded(s.loaded));
    lemma_filter_members(s.loaded, is_undesired(center, reach));
}

/// A batch hands out at most one action for each of its chunks.
pub proof fn lemma_batch_actions_len(loaded: Seq<GridCoord>, batch: Seq<GridCoord>)
    ensures
        despawn_actions(loaded, batch).len() <= batch.len(),
        spawn_actions(loaded, batch).len() <= batch.len(),
    decreases batch.len(),
{
    if batch.len() > 0 {
        lemma_batch_actions_len(loaded, batch.drop_last());
    }
}

/// One tick hands out at most `budget` despawns and at most `budget` spawns,
/// however far the viewer has moved and however wide the view is.
pub proof fn lemma_tick_is_bounded(s: StreamState, center: GridCoord, reach: int, budget: int)
    requires
        budget >= 0,
    ensures
        ticked(s, center, reach, budget).1.len() <= 2 * budget,
{
    let t = if s.last_viewer_chunk == Some(center) {
        s
    } else {
        retargeted(s, center, reach)
    };
    let nd = batch_len(t.pending_despawn, budget);
    let ns = batch_len(t.pending_spawn, budget);
    lemma_batch_actions_len(t.loaded, t.pending_despawn.take(nd));
    lemma_batch_actions_len(
        despawned(t.loaded, t.pending_despawn.take(nd)),
        t.pending_spawn.take(ns),
    );
}

/// The state after `n` ticks during which the viewer stays in chunk `center`.
pub open spec fn after_ticks(
    s: StreamState,
    center: GridCoord,
    reach: int,
    budget: int,
    n: nat,
) -> StreamState
    decreases n,
{
    if n == 0 {
        s
    } else {
        ticked(after_ticks(s, center, reach, budget, (n - 1) as nat), center, reach, budget).0
    }
}

/// The actions of tick number `n`, counted from one, of such a run.
pub open spec fn actions_of_tick(
    s: StreamState,
    center: GridCoord,
    reach: int,
    budget: int,
    n: nat,
) -> Seq<TerrainAction>
    recommends
        n >= 1,
{
    ticked(after_ticks(s, center, reach, budget, (n - 1) as nat), center, reach, budget).1
}

/// Working the targets out leaves the engine settled.
pub proof fn lemma_retargeted_settled(s: StreamState, center: GridCoord, reach: int)
    requires
        reach >= 0,
        s.loaded.no_duplicates(),
    ensures
        settled(retargeted(s, center, reach), center, reach),
{
    lemma_retargeted_queues(s, center, reach);
    let t = retargeted(s, center, reach);
    assert forall|i: int| 0 <= i < t.pending_spawn.len() implies chebyshev(
        #[trigger] t.pending_spawn[i],
        center,
    ) <= reach && !t.loaded.contains(t.pending_spawn[i]) by {
        assert(t.pending_spawn.contains(t.pending_spawn[i]));
    }
    assert forall|i: int| 0 <= i < t.pending_despawn.len() implies chebyshev(
        #[trigger] t.pending_despawn[i],
        center,
    ) > reach && t.loaded.contains(t.pending_despawn[i]) by {
        assert(t.pending_despawn.contains(t.pending_despawn[i]));
    }
}

/// A despawn batch hands out despawns only.
pub proof fn lemma_despawn_actions_kind(loaded: Seq<GridCoord>, batch: Seq<GridCoord>)
    ensures
        forall|c: GridCoord| !(#[trigger] despawn_actions(loaded, batch).contains(
            TerrainAction::SpawnChunk(c),
        )),
    decreases batch.len(),
{
    if batch.len() > 0 {
        lemma_despawn_actions_kind(loaded, batch.drop_last());
        let before = despawn_actions(loaded, batch.drop_last());
        assert forall|c: GridCoord| !(#[trigger] despawn_actions(loaded, batch).contains(
            TerrainAction::SpawnChunk(c),
        )) by {
            let acts = despawn_actions(loaded, batch);
            if acts.contains(TerrainAction::SpawnChunk(c)) {
                let j = choose|j: int| 0 <= j < acts.len() && acts[j] == TerrainAction::SpawnChunk(c);
                if j < before.len() {
                    assert(before[j] == TerrainAction::SpawnChunk(c));
                    assert(before.contains(TerrainAction::SpawnChunk(c)));
                }
            }
        }
    }
}

/// A spawn batch hands out a spawn only for a chunk of the batch that was not
/// loaded before it.
pub proof fn lemma_spawn_actions_members(loaded: Seq<GridCoord>, batch: Seq<GridCoord>)
    requires
        loaded.no_duplicates(),
    ensures
        forall|c: GridCoord| #[trigger]
            spawn_actions(loaded, batch).contains(TerrainAction::SpawnChunk(c)) ==> batch.contains(
                c,
            ) && !loaded.contains(c),
    decreases batch.len(),
{
    if batch.len() > 0 {
        let rest = batch.drop_last();
        let last = batch.last();
        lemma_spawn_actions_members(loaded, rest);
        lemma_spawned_keeps_distinct(loaded, rest);
        let before = spawn_actions(loaded, rest);
        assert forall|c: GridCoord| #[trigger]
            spawn_actions(loaded, batch).contains(TerrainAction::SpawnChunk(c)) implies batch.contains(
            c,
        ) && !loaded.contains(c) by {
            let acts = spawn_actions(loaded, batch);
            let j = choose|j: int| 0 <= j < acts.len() && acts[j] == TerrainAction::SpawnChunk(c);
            if j < before.len() {
                assert(before[j] == TerrainAction::SpawnChunk(c));
                assert(before.contains(TerrainAction::SpawnChunk(c)));
                let k = choose|k: int| 0 <= k < rest.len() && rest[k] == c;
                assert(batch[k] == c);
            } else {
                assert(c == last);
                assert(batch[batch.len() - 1] == c);
                assert(!spawned(loaded, rest).contains(c));
            }
        }
    }
}

/// A spawn batch of distinct chunks, none of them loaded, hands out a spawn
/// for each and loads each.
pub proof fn lemma_spawn_actions_fresh(loaded: Seq<GridCoord>, batch: Seq<GridCoord>)
    requires
        loaded.no_duplicates(),
        batch.no_duplicates(),
        forall|j: int| 0 <= j < batch.len() ==> !loaded.contains(#[trigger] batch[j]),
    ensures
        forall|j: int|
            0 <= j < batch.len() ==> spawn_actions(loaded, batch).contains(
                TerrainAction::SpawnChunk(#[trigger] batch[j]),
            ),
    decreases batch.len(),
{
    if batch.len() > 0 {
        let rest = batch.drop_last();
        let last = batch.last();
        assert forall|j: int| 0 <= j < rest.len() implies !loaded.contains(#[trigger] rest[j]) by {
            assert(rest[j] == batch[j]);
        }
        lemma_spawn_actions_fresh(loaded, rest);
        lemma_spawned_keeps_distinct(loaded, rest);
        let before = spawn_actions(loaded, rest);
        let acts = spawn_actions(loaded, batch);
        if rest.contains(last) {
            let k = choose|k: int| 0 <= k < rest.len() && rest[k] == last;
            assert(batch[k] == batch[batch.len() - 1]);
        }
        assert(!loaded.contains(batch[batch.len() - 1]));
        assert(!spawned(loaded, rest).contains(last));
        assert(acts == before.push(TerrainAction::SpawnChunk(last)));
        assert forall|j: int| 0 <= j < batch.len() implies acts.contains(
            TerrainAction::SpawnChunk(#[trigger] batch[j]),
        ) by {
            if j < rest.len() {
                assert(rest[j] == batch[j]);
                assert(before.contains(TerrainAction::SpawnChunk(rest[j])));
                let k = choose|k: int|
                    0 <= k < before.len() && before[k] == TerrainAction::SpawnChunk(rest[j]);
                assert(acts[k] == TerrainAction::SpawnChunk(batch[j]));
            } else {
                assert(acts[before.len() as int] == TerrainAction::SpawnChunk(last));
            }
        }
    }
}

/// Draining leaves a settled engine settled.
pub proof fn lemma_drained_settled(t: StreamState, center: GridCoord, reach: int, budget: int)
    requires
        settled(t, center, reach),
        budget >= 1,
    ensures
        settled(drained(t, budget).0, center, reach),
{
    let nd = batch_len(t.pending_despawn, budget);
    let ns = batch_len(t.pending_spawn, budget);
    let bd = t.pending_despawn.take(nd);
    let bs = t.pending_spawn.take(ns);
    let kept = despawned(t.loaded, bd);
    let u = drained(t, budget).0;
    lemma_despawned_keeps_distinct(t.loaded, bd);
    lemma_spawned_keeps_distinct(kept, bs);
    assert forall|i: int| 0 <= i < u.pending_spawn.len() implies chebyshev(
        #[trigger] u.pending_spawn[i],
        center,
    ) <= reach && !u.loaded.contains(u.pending_spawn[i]) by {
        let e = t.pending_spawn[i + ns];
        assert(u.pending_spawn[i] == e);
        if bs.contains(e) {
            let k = choose|k: int| 0 <= k < bs.len() && bs[k] == e;
            assert(t.pending_spawn[k] == t.pending_spawn[i + ns]);
        }
    }
    assert forall|i: int| 0 <= i < u.pending_despawn.len() implies chebyshev(
        #[trigger] u.pending_despawn[i],
        center,
    ) > reach && u.loaded.contains(u.pending_despawn[i]) by {
        let e = t.pending_despawn[i + nd];
        assert(u.pending_despawn[i] == e);
        if bd.contains(e) {
            let k = choose|k: int| 0 <= k < bd.len() && bd[k] == e;
            assert(t.pending_despawn[k] == t.pending_despawn[i + nd]);
        }
        assert(kept.contains(e));
    }
    assert forall|i: int, j: int|
        0 <= i < u.pending_despawn.len() && 0 <= j < u.pending_despawn.len() && i != j implies u.pending_despawn[i]
        != u.pending_despawn[j] by {
        assert(u.pending_despawn[i] == t.pending_despawn[i + nd]);
        assert(u.pending_despawn[j] == t.pending_despawn[j + nd]);
    }
    assert forall|i: int, j: int|
        0 <= i < u.pending_spawn.len() && 0 <= j < u.pending_spawn.len() && i != j implies u.pending_spawn[i]
        != u.pending_spawn[j] by {
        assert(u.pending_spawn[i] == t.pending_spawn[i + ns]);
        assert(u.pending_spawn[j] == t.pending_spawn[j + ns]);
    }
}

/// A chunk that one tick takes from the spawn queue of a settled engine is
/// announced by that tick and loaded after it.
pub proof fn lemma_batch_is_spawned(
    t: StreamState,
    center: GridCoord,
    reach: int,
    budget: int,
    i: int,
)
    requires
        settled(t, center, reach),
        budget >= 1,
        0 <= i < batch_len(t.pending_spawn, budget),
    ensures
        drained(t, budget).1.contains(TerrainAction::SpawnChunk(t.pending_spawn[i])),
        drained(t, budget).0.loaded.contains(t.pending_spawn[i]),
{
    let nd = batch_len(t.pending_despawn, budget);
    let ns = batch_len(t.pending_spawn, budget);
    let bd = t.pending_despawn.take(nd);
    let bs = t.pending_spawn.take(ns);
    let kept = despawned(t.loaded, bd);
    lemma_despawned_keeps_distinct(t.loaded, bd);
    lemma_spawned_keeps_distinct(kept, bs);
    assert forall|j: int| 0 <= j < bs.len() implies !kept.contains(#[trigger] bs[j]) by {
        assert(bs[j] == t.pending_spawn[j]);
    }
    lemma_spawn_actions_fresh(kept, bs);
    let c = t.pending_spawn[i];
    assert(bs[i] == c);
    assert(bs.contains(c));
    let first = despawn_actions(t.loaded, bd);
    let second = spawn_actions(kept, bs);
    assert(second.contains(TerrainAction::SpawnChunk(bs[i])));
    let k = choose|k: int| 0 <= k < second.len() && second[k] == TerrainAction::SpawnChunk(c);
    assert((first + second)[first.len() + k] == TerrainAction::SpawnChunk(c));
}

/// A chunk that one tick leaves in the spawn queue of a settled engine is not
/// announced by that tick.
pub proof fn lemma_queued_is_not_spawned(
    t: StreamState,
    center: GridCoord,
    reach: int,
    budget: int,
    i: int,
)
    requires
        settled(t, center, reach),
        budget >= 1,
        batch_len(t.pending_spawn, budget) <= i < t.pending_spawn.len(),
    ensures
        !drained(t, budget).1.contains(TerrainAction::SpawnChunk(t.pending_spawn[i])),
{
    let nd = batch_len(t.pending_despawn, budget);
    let ns = batch_len(t.pending_spawn, budget);
    let bd = t.pending_despawn.take(nd);
    let bs = t.pending_spawn.take(ns);
    let kept = despawned(t.loaded, bd);
    let c = t.pending_spawn[i];
    lemma_despawned_keeps_distinct(t.loaded, bd);
    lemma_despawn_actions_kind(t.loaded, bd);
    lemma_spawn_actions_members(kept, bs);
    let first = despawn_actions(t.loaded, bd);
    let second = spawn_actions(kept, bs);
    if bs.contains(c) {
        let k = choose|k: int| 0 <= k < bs.len() && bs[k] == c;
        assert(t.pending_spawn[k] == t.pending_spawn[i]);
    }
    if (first + second).contains(TerrainAction::SpawnChunk(c)) {
        let k = choose|k: int|
            0 <= k < (first + second).len() && (first + second)[k] == TerrainAction::SpawnChunk(c);
        if k < first.len() {
            assert(first[k] == TerrainAction::SpawnChunk(c));
            assert(first.contains(TerrainAction::SpawnChunk(c)));
        } else {
            assert(second[k - first.len()] == TerrainAction::SpawnChunk(c));
            assert(second.contains(TerrainAction::SpawnChunk(c)));
        }
    }
}

/// A desired chunk that is loaded in a settled engine stays loaded over a
/// tick, and the tick does not announce it again.
pub proof fn lemma_loaded_stays(
    t: StreamState,
    center: GridCoord,
    reach: int,
    budget: int,
    c: GridCoord,
)
    requires
        settled(t, center, reach),
        budget >= 1,
        chebyshev(c, center) <= reach,
        t.loaded.contains(c),
    ensures
        drained(t, budget).0.loaded.contains(c),
        !drained(t, budget).1.contains(TerrainAction::SpawnChunk(c)),
{
    let nd = batch_len(t.pending_despawn, budget);
    let ns = batch_len(t.pending_spawn, budget);
    let bd = t.pending_despawn.take(nd);
    let bs = t.pending_spawn.take(ns);
    let kept = despawned(t.loaded, bd);
    lemma_despawned_keeps_distinct(t.loaded, bd);
    lemma_spawned_keeps_distinct(kept, bs);
    lemma_despawn_actions_kind(t.loaded, bd);
    lemma_spawn_actions_members(kept, bs);
    if bd.contains(c) {
        let k = choose|k: int| 0 <= k < bd.len() && bd[k] == c;
        assert(t.pending_despawn[k] == c);
    }
    assert(kept.contains(c));
    let first = despawn_actions(t.loaded, bd);
    let second = spawn_actions(kept, bs);
    if (first + second).contains(TerrainAction::SpawnChunk(c)) {
        let k = choose|k: int|
            0 <= k < (first + second).len() && (first + second)[k] == TerrainAction::SpawnChunk(c);
        if k < first.len() {
            assert(first[k] == TerrainAction::SpawnChunk(c));
            assert(first.contains(TerrainAction::SpawnChunk(c)));
        } else {
            assert(second[k - first.len()] == TerrainAction::SpawnChunk(c));
            assert(second.contains(TerrainAction::SpawnChunk(c)));
        }
    }
}

/// A despawn batch hands out a despawn only for a chunk of the batch that was
/// loaded before it.
pub proof fn lemma_despawn_actions_members(loaded: Seq<GridCoord>, batch: Seq<GridCoord>)
    requires
        loaded.no_duplicates(),
    ensures
        forall|c: GridCoord| #[trigger]
            despawn_actions(loaded, batch).contains(TerrainAction::DespawnChunk(c))
                ==> batch.contains(c) && loaded.contains(c),
        forall|c: GridCoord| !(#[trigger] spawn_actions(loaded, batch).contains(
            TerrainAction::DespawnChunk(c),
        )),
    decreases batch.len(),
{
    if batch.len() > 0 {
        let rest = batch.drop_last();
        let last = batch.last();
        lemma_despawn_actions_members(loaded, rest);
        lemma_despawned_keeps_distinct(loaded, rest);
        let before = despawn_actions(loaded, rest);
        assert forall|c: GridCoord| #[trigger]
            despawn_actions(loaded, batch).contains(
                TerrainAction::DespawnChunk(c),
            ) implies batch.contains(c) && loaded.contains(c) by {
            let acts = despawn_actions(loaded, batch);
            let j = choose|j: int| 0 <= j < acts.len() && acts[j] == TerrainAction::DespawnChunk(c);
            if j < before.len() {
                assert(before[j] == TerrainAction::DespawnChunk(c));
                assert(before.contains(TerrainAction::DespawnChunk(c)));
                let k = choose|k: int| 0 <= k < rest.len() && rest[k] == c;
                assert(batch[k] == c);
            } else {
                assert(c == last);
                assert(batch[batch.len() - 1] == c);
                assert(despawned(loaded, rest).contains(c));
            }
        }
        let sbefore = spawn_actions(loaded, rest);
        assert forall|c: GridCoord| !(#[trigger] spawn_actions(loaded, batch).contains(
            TerrainAction::DespawnChunk(c),
        )) by {
            let acts = spawn_actions(loaded, batch);
            if acts.contains(TerrainAction::DespawnChunk(c)) {
                let j = choose|j: int|
                    0 <= j < acts.len() && acts[j] == TerrainAction::DespawnChunk(c);
                if j < sbefore.len() {
                    assert(sbefore[j] == TerrainAction::DespawnChunk(c));
                    assert(sbefore.contains(TerrainAction::DespawnChunk(c)));
                }
            }
        }
    }
}

/// What a tick announces is so: of an engine in order, a tick around `center`
/// spawns only what is desired and was not loaded, despawns only what is not
/// desired and was loaded, and leaves the chunks loaded as it says.
pub proof fn lemma_tick_announces(s: StreamState, center: GridCoord, reach: int, budget: int)
    requires
        reach >= 0,
        budget >= 1,
        s.loaded.no_duplicates(),
        in_order(s, reach),
    ensures
        announced(
            s,
            ticked(s, center, reach, budget).0,
            ticked(s, center, reach, budget).1,
            center,
            reach,
        ),
{
    let t = if s.last_viewer_chunk == Some(center) {
        s
    } else {
        retargeted(s, center, reach)
    };
    if s.last_viewer_chunk != Some(center) {
        lemma_retargeted_settled(s, center, reach);
    }
    assert(settled(t, center, reach));
    let nd = batch_len(t.pending_despawn, budget);
    let ns = batch_len(t.pending_spawn, budget);
    let bd = t.pending_despawn.take(nd);
    let bs = t.pending_spawn.take(ns);
    let kept = despawned(t.loaded, bd);
    let after = spawned(kept, bs);
    let first = despawn_actions(t.loaded, bd);
    let second = spawn_actions(kept, bs);
    let actions = first + second;
    lemma_despawned_keeps_distinct(t.loaded, bd);
    lemma_spawned_keeps_distinct(kept, bs);
    lemma_despawn_actions_kind(t.loaded, bd);
    lemma_despawn_actions_members(t.loaded, bd);
    lemma_despawn_actions_members(kept, bs);
    lemma_spawn_actions_members(kept, bs);
    assert forall|c: GridCoord| #[trigger]
        actions.contains(TerrainAction::SpawnChunk(c)) implies chebyshev(c, center) <= reach
        && !s.loaded.contains(c) && after.contains(c) by {
        let k = choose|k: int| 0 <= k < actions.len() && actions[k] == TerrainAction::SpawnChunk(c);
        if k < first.len() {
            assert(first[k] == TerrainAction::SpawnChunk(c));
            assert(first.contains(TerrainAction::SpawnChunk(c)));
        } else {
            assert(second[k - first.len()] == TerrainAction::SpawnChunk(c));
            assert(second.contains(TerrainAction::SpawnChunk(c)));
            let j = choose|j: int| 0 <= j < bs.len() && bs[j] == c;
            assert(t.pending_spawn[j] == c);
        }
    }
    assert forall|c: GridCoord| #[trigger]
        actions.contains(TerrainAction::DespawnChunk(c)) implies chebyshev(c, center) > reach
        && s.loaded.contains(c) && !after.contains(c) by {
        let k = choose|k: int|
            0 <= k < actions.len() && actions[k] == TerrainAction::DespawnChunk(c);
        if k < first.len() {
            assert(first[k] == TerrainAction::DespawnChunk(c));
            assert(first.contains(TerrainAction::DespawnChunk(c)));
            let j = choose|j: int| 0 <= j < bd.len() && bd[j] == c;
            assert(t.pending_despawn[j] == c);
            if bs.contains(c) {
                let i = choose|i: int| 0 <= i < bs.len() && bs[i] == c;
                assert(t.pending_spawn[i] == c);
            }
        } else {
            assert(second[k - first.len()] == TerrainAction::DespawnChunk(c));
            assert(second.contains(TerrainAction::DespawnChunk(c)));
        }
    }
}

/// The tick, counted from one, that takes entry `i` of the spawn queue.
pub open spec fn spawn_tick(i: int, budget: int) -> nat {
    (i / budget + 1) as nat
}

/// How a settled engine works through its spawn queue while the viewer stays
/// in its chunk. Entry `i` of the queue moves up by `budget` places a tick;
/// tick `spawn_tick(i, budget)` announces it, and no other does; from then on
/// it is loaded.
pub proof fn lemma_settled_run(
    t: StreamState,
    center: GridCoord,
    reach: int,
    budget: int,
    i: int,
    m: nat,
)
    requires
        settled(t, center, reach),
        budget >= 1,
        0 <= i < t.pending_spawn.len(),
    ensures
        ({
            let c = t.pending_spawn[i];
            let n = spawn_tick(i, budget);
            let u = after_ticks(t, center, reach, budget, m);
            &&& settled(u, center, reach)
            &&& m < n ==> u.pending_spawn.len() == t.pending_spawn.len() - m * budget && m * budget
                <= i && u.pending_spawn[i - m * budget] == c
            &&& m >= n ==> u.loaded.contains(c)
            &&& m >= 1 ==> (actions_of_tick(t, center, reach, budget, m).contains(
                TerrainAction::SpawnChunk(c),
            ) <==> m == n)
        }),
    decreases m,
{
    let c = t.pending_spawn[i];
    let n = spawn_tick(i, budget);
    lemma_floor_div_bounds(i, budget);
    assert(0 <= i / budget) by (nonlinear_arith)
        requires
            i < (i / budget + 1) * budget,
            i >= 0,
            budget >= 1,
    ;
    if m == 0 {
        assert(0 * budget == 0);
    } else {
        let p = (m - 1) as nat;
        lemma_settled_run(t, center, reach, budget, i, p);
        let u = after_ticks(t, center, reach, budget, p);
        lemma_drained_settled(u, center, reach, budget);
        assert(after_ticks(t, center, reach, budget, m) == drained(u, budget).0);
        assert(actions_of_tick(t, center, reach, budget, m) == drained(u, budget).1);
        if p < n {
            let j = i - p * budget;
            assert(m * budget == p * budget + budget) by (nonlinear_arith)
                requires
                    m == p + 1,
            ;
            if m < n {
                assert(m * budget <= i) by (nonlinear_arith)
                    requires
                        m <= i / budget,
                        (i / budget) * budget <= i,
                        budget >= 1,
                ;
                assert(batch_len(u.pending_spawn, budget) == budget);
                lemma_queued_is_not_spawned(u, center, reach, budget, j);
            } else {
                assert(p == i / budget);
                assert(j < budget) by (nonlinear_arith)
                    requires
                        j == i - p * budget,
                        p == i / budget,
                        i < (i / budget + 1) * budget,
                ;
                lemma_batch_is_spawned(u, center, reach, budget, j);
            }
        } else {
            assert(chebyshev(t.pending_spawn[i], center) <= reach);
            lemma_loaded_stays(u, center, reach, budget, c);
        }
    }
}

/// A run that starts with the viewer entering chunk `center` goes as the run
/// of the engine with its targets worked out for that chunk.
pub proof fn lemma_first_tick_retargets(
    s: StreamState,
    center: GridCoord,
    reach: int,
    budget: int,
    m: nat,
)
    requires
        m >= 1,
        s.last_viewer_chunk != Some(center),
    ensures
        after_ticks(s, center, reach, budget, m) == after_ticks(
            retargeted(s, center, reach),
            center,
            reach,
            budget,
            m,
        ),
        actions_of_tick(s, center, reach, budget, m) == actions_of_tick(
            retargeted(s, center, reach),
            center,
            reach,
            budget,
            m,
        ),
    decreases m,
{
    let t = retargeted(s, center, reach);
    if m == 1 {
        assert(after_ticks(s, center, reach, budget, 0) == s);
        assert(after_ticks(t, center, reach, budget, 0) == t);
    } else {
        lemma_first_tick_retargets(s, center, reach, budget, (m - 1) as nat);
    }
}

/// When the viewer enters chunk `center`, every chunk `c` that is desired
/// around it and not loaded is announced by a spawn within
/// `ceil(queue length / budget)` ticks, by exactly one tick, and is loaded from
/// that tick on, once, for as long as the viewer stays in the chunk.
pub proof fn lemma_spawn_within_bound(
    s: StreamState,
    center: GridCoord,
    reach: int,
    budget: int,
    c: GridCoord,
)
    requires
        reach >= 0,
        budget >= 1,
        s.loaded.no_duplicates(),
        s.last_viewer_chunk != Some(center),
        chebyshev(c, center) <= reach,
        !s.loaded.contains(c),
    ensures
        ({
            let queue = retargeted(s, center, reach).pending_spawn;
            let n = spawn_tick(queue.index_of(c), budget);
            &&& queue.contains(c)
            &&& 1 <= n <= ceil_div_spec(queue.len() as int, budget)
            &&& forall|m: nat|
                m >= 1 ==> (#[trigger] actions_of_tick(s, center, reach, budget, m).contains(
                    TerrainAction::SpawnChunk(c),
                ) <==> m == n)
            &&& forall|m: nat|
                m >= n ==> (#[trigger] after_ticks(s, center, reach, budget, m)).loaded.contains(c)
            &&& forall|m: nat|
                (#[trigger] after_ticks(s, center, reach, budget, m)).loaded.no_duplicates()
        }),
{
    let t = retargeted(s, center, reach);
    let queue = t.pending_spawn;
    lemma_retargeted_queues(s, center, reach);
    lemma_retargeted_settled(s, center, reach);
    assert(queue.contains(c));
    let i = queue.index_of(c);
    let n = spawn_tick(i, budget);
    lemma_floor_div_bounds(i, budget);
    assert(0 <= i / budget) by (nonlinear_arith)
        requires
            i < (i / budget + 1) * budget,
            i >= 0,
            budget >= 1,
    ;
    assert(n <= ceil_div_spec(queue.len() as int, budget)) by {
        assert((i / budget + 1) * budget == (i / budget) * budget + budget) by (nonlinear_arith);
        assert((i / budget + 2) * budget == (i / budget) * budget + budget + budget)
            by (nonlinear_arith);
        lemma_floor_div_unique(i + budget, budget, i / budget + 1);
        lemma_floor_div_monotone(i + budget, queue.len() + budget - 1, budget);
    }
    assert forall|m: nat| m >= 1 implies (#[trigger] actions_of_tick(
        s,
        center,
        reach,
        budget,
        m,
    ).contains(TerrainAction::SpawnChunk(c)) <==> m == n) by {
        lemma_first_tick_retargets(s, center, reach, budget, m);
        lemma_settled_run(t, center, reach, budget, i, m);
    }
    assert forall|m: nat| m >= n implies (#[trigger] after_ticks(
        s,
        center,
        reach,
        budget,
        m,
    )).loaded.contains(c) by {
        lemma_first_tick_retargets(s, center, reach, budget, m);
        lemma_settled_run(t, center, reach, budget, i, m);
    }
    assert forall|m: nat|
        (#[trigger] after_ticks(s, center, reach, budget, m)).loaded.no_duplicates() by {
        if m >= 1 {
            lemma_first_tick_retargets(s, center, reach, budget, m);
            lemma_settled_run(t, center, reach, budget, i, m);
        }
    }
}

/// What an action does to "chunk `c` is loaded": a spawn of `c` loads it and
/// a despawn of `c` unloads it, in order only if it was not, or was, loaded;
/// an action on another chunk leaves it be. `None` where the action is out
/// of order.
pub open spec fn replay_one(action: TerrainAction, c: GridCoord, loaded: bool) -> Option<bool> {
    match action {
        TerrainAction::SpawnChunk(d) => if d != c {
            Some(loaded)
        } else if loaded {
            None
        } else {
            Some(true)
        },
        TerrainAction::DespawnChunk(d) => if d != c {
            Some(loaded)
        } else if loaded {
            Some(false)
        } else {
            None
        },
    }
}

/// Whether chunk `c` is loaded after a list of actions, starting as
/// `loaded`; `None` if the actions on `c` do not alternate: if it is spawned
/// while loaded, or despawned while not.
pub open spec fn replay(actions: Seq<TerrainAction>, c: GridCoord, loaded: bool) -> Option<bool>
    decreases actions.len(),
{
    if actions.len() == 0 {
        Some(loaded)
    } else {
        match replay(actions.drop_last(), c, loaded) {
            Some(so_far) => replay_one(actions.last(), c, so_far),
            None => None,
        }
    }
}

/// Replaying two lists on end is replaying the second after the first.
pub proof fn lemma_replay_concat(
    a: Seq<TerrainAction>,
    b: Seq<TerrainAction>,
    c: GridCoord,
    loaded: bool,
)
    ensures
        replay(a + b, c, loaded) == match replay(a, c, loaded) {
            Some(so_far) => replay(b, c, so_far),
            None => None,
        },
    decreases b.len(),
{
    if b.len() == 0 {
        assert(a + b =~= a);
    } else {
        lemma_replay_concat(a, b.drop_last(), c, loaded);
        assert((a + b).drop_last() =~= a + b.drop_last());
        assert((a + b).last() == b.last());
    }
}

/// The despawns and the spawns of a batch are in order for every chunk, and
/// leave it loaded as the batch leaves the list.
pub proof fn lemma_batch_replays(loaded: Seq<GridCoord>, batch: Seq<GridCoord>, c: GridCoord)
    requires
        loaded.no_duplicates(),
    ensures
        replay(despawn_actions(loaded, batch), c, loaded.contains(c)) == Some(
            despawned(loaded, batch).contains(c),
        ),
        replay(spawn_actions(loaded, batch), c, loaded.contains(c)) == Some(
            spawned(loaded, batch).contains(c),
        ),
    decreases batch.len(),
{
    if batch.len() > 0 {
        let rest = batch.drop_last();
        let last = batch.last();
        lemma_batch_replays(loaded, rest, c);
        lemma_despawned_keeps_distinct(loaded, rest);
        lemma_despawned_keeps_distinct(loaded, batch);
        lemma_spawned_keeps_distinct(loaded, rest);
        lemma_spawned_keeps_distinct(loaded, batch);
        lemma_contains_last(batch, c);
        let d = despawn_actions(loaded, rest);
        if despawned(loaded, rest).contains(last) {
            assert(d.push(TerrainAction::DespawnChunk(last)).drop_last() =~= d);
        }
        let p = spawn_actions(loaded, rest);
        if !spawned(loaded, rest).contains(last) {
            assert(p.push(TerrainAction::SpawnChunk(last)).drop_last() =~= p);
        }
    }
}

/// The actions of one tick are in order for every chunk, and leave it loaded
/// as the tick leaves the list of loaded chunks.
pub proof fn lemma_tick_replays(
    s: StreamState,
    center: GridCoord,
    reach: int,
    budget: int,
    c: GridCoord,
)
    requires
        s.loaded.no_duplicates(),
    ensures
        replay(ticked(s, center, reach, budget).1, c, s.loaded.contains(c)) == Some(
            ticked(s, center, reach, budget).0.loaded.contains(c),
        ),
        ticked(s, center, reach, budget).0.loaded.no_duplicates(),
{
    let t = if s.last_viewer_chunk == Some(center) {
        s
    } else {
        retargeted(s, center, reach)
    };
    let nd = batch_len(t.pending_despawn, budget);
    let ns = batch_len(t.pending_spawn, budget);
    let bd = t.pending_despawn.take(nd);
    let bs = t.pending_spawn.take(ns);
    let kept = despawned(t.loaded, bd);
    lemma_despawned_keeps_distinct(t.loaded, bd);
    lemma_spawned_keeps_distinct(kept, bs);
    lemma_batch_replays(t.loaded, bd, c);
    lemma_batch_replays(kept, bs, c);
    lemma_replay_concat(despawn_actions(t.loaded, bd), spawn_actions(kept, bs), c, s.loaded.contains(c));
}

/// The state after the first `n` ticks of a run in which the viewer is in
/// the chunk `centers[k]` at tick `k`.
pub open spec fn run_state(
    s: StreamState,
    centers: Seq<GridCoord>,
    reach: int,
    budget: int,
    n: nat,
) -> StreamState
    decreases n,
{
    if n == 0 {
        s
    } else {
        ticked(
            run_state(s, centers, reach, budget, (n - 1) as nat),
            centers[n - 1],
            reach,
            budget,
        ).0
    }
}

/// The actions of the first `n` ticks of such a run, on end.
pub open spec fn run_actions(
    s: StreamState,
    centers: Seq<GridCoord>,
    reach: int,
    budget: int,
    n: nat,
) -> Seq<TerrainAction>
    decreases n,
{
    if n == 0 {
        Seq::empty()
    } else {
        run_actions(s, centers, reach, budget, (n - 1) as nat) + ticked(
            run_state(s, centers, reach, budget, (n - 1) as nat),
            centers[n - 1],
            reach,
            budget,
        ).1
    }
}

/// Over any run, wherever the viewer goes, the actions on every chunk
/// alternate: a chunk is spawned only while not loaded and despawned only
/// while loaded, and is loaded in the end exactly if its last action was a
/// spawn. On a new world, where nothing is loaded, the actions on a chunk so
/// begin with a spawn and go spawn, despawn, spawn, and on.
pub proof fn lemma_actions_alternate(
    s: StreamState,
    centers: Seq<GridCoord>,
    reach: int,
    budget: int,
    n: nat,
    c: GridCoord,
)
    requires
        s.loaded.no_duplicates(),
        n <= centers.len(),
    ensures
        run_state(s, centers, reach, budget, n).loaded.no_duplicates(),
        replay(run_actions(s, centers, reach, budget, n), c, s.loaded.contains(c)) == Some(
            run_state(s, centers, reach, budget, n).loaded.contains(c),
        ),
    decreases n,
{
    if n > 0 {
        let p = (n - 1) as nat;
        lemma_actions_alternate(s, centers, reach, budget, p, c);
        let u = run_state(s, centers, reach, budget, p);
        lemma_tick_replays(u, centers[n - 1], reach, budget, c);
        lemma_replay_concat(
            run_actions(s, centers, reach, budget, p),
            ticked(u, centers[n - 1], reach, budget).1,
            c,
            s.loaded.contains(c),
        );
    }
}

} // verus!
