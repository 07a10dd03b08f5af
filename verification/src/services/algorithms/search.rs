use vstd::prelude::*;

use crate::domain::geography::elevation::OCEAN_LEVEL;
use crate::domain::world_data::map::WorldMap;
use crate::services::algorithms::grid::{adjacent, cell_index, on_grid, step_cost};
use crate::services::algorithms::min_queue::QueueEntry;
use crate::services::algorithms::path_finder::PathFinder;

verus! {

/// The elevation of cell `p`.
pub open spec fn elevation_at(map: WorldMap, p: (usize, usize)) -> u32 {
    map.terrain@[cell_index(p, map.width)].elevation_val
}

/// The cost of a step from cell `a` to cell `b`.
pub open spec fn step_between(map: WorldMap, a: (usize, usize), b: (usize, usize)) -> nat {
    step_cost(elevation_at(map, a), elevation_at(map, b))
}

/// Cell `p` is above the ocean.
pub open spec fn is_land(map: WorldMap, p: (usize, usize)) -> bool {
    elevation_at(map, p) >= OCEAN_LEVEL
}

/// The best known cost of cell `p`.
pub open spec fn dist(pf: PathFinder, p: (usize, usize), w: usize) -> u32 {
    pf.g_score@[cell_index(p, w)]
}

/// Cell `p` has been settled.
pub open spec fn reached(pf: PathFinder, p: (usize, usize), w: usize) -> bool {
    pf.visited@[cell_index(p, w)]
}

/// The queue holds the entry `(c, p)`.
pub open spec fn queued(q: Seq<QueueEntry>, c: u32, p: (usize, usize)) -> bool {
    exists|k: int| 0 <= k < q.len() && q[k] == (c, p)
}

/// The sum of the scores in `s`.
pub open spec fn score_total(s: Seq<u32>) -> nat
    decreases s.len(),
{
    if s.len() == 0 {
        0
    } else {
        score_total(s.drop_last()) + s.last() as nat
    }
}

/// Lowering one score lowers the total by the difference.
pub proof fn lemma_score_total_update(s: Seq<u32>, i: int, v: u32)
    requires
        0 <= i < s.len(),
    ensures
        score_total(s.update(i, v)) + s[i] == score_total(s) + v,
    decreases s.len(),
{
    if i < s.len() - 1 {
        assert(s.update(i, v).drop_last() =~= s.drop_last().update(i, v));
        lemma_score_total_update(s.drop_last(), i, v);
    } else {
        assert(s.update(i, v).drop_last() =~= s.drop_last());
    }
}

/// A grid of `w` by `h` cells has an on-grid cell for each index below
/// `w * h`, and the map's tables hold one entry per cell.
pub open spec fn tables_fit(map: WorldMap, pf: PathFinder) -> bool {
    &&& map.wf()
    &&& map.width > 0
    &&& map.height > 0
    &&& pf.sized((map.width * map.height) as nat)
}

/// An entry removed from a queue leaves every other entry in it.
pub proof fn lemma_queued_after_remove(q: Seq<QueueEntry>, k: int, c: u32, p: (usize, usize))
    requires
        0 <= k < q.len(),
        queued(q, c, p),
        q[k] != (c, p),
    ensures
        queued(q.remove(k), c, p),
{
    let j = choose|j: int| 0 <= j < q.len() && q[j] == (c, p);
    if j < k {
        assert(q.remove(k)[j] == q[j]);
    } else {
        assert(q.remove(k)[j - 1] == q[j]);
    }
}

/// A pushed queue keeps every entry and gains the new one.
pub proof fn lemma_queued_after_push(q: Seq<QueueEntry>, e: QueueEntry, c: u32, p: (usize, usize))
    requires
        queued(q, c, p) || e == (c, p),
    ensures
        queued(q.push(e), c, p),
{
    if e == (c, p) {
        assert(q.push(e)[q.len() as int] == e);
    } else {
        let j = choose|j: int| 0 <= j < q.len() && q[j] == (c, p);
        assert(q.push(e)[j] == q[j]);
    }
}

/// On-grid cells have indices within the tables.
pub proof fn lemma_on_grid_index(map: WorldMap, pf: PathFinder, p: (usize, usize))
    requires
        tables_fit(map, pf),
        on_grid(p, map.width, map.height),
    ensures
        0 <= cell_index(p, map.width) < map.width * map.height,
        0 <= cell_index(p, map.width) < pf.g_score@.len(),
        cell_index(p, map.width) < map.terrain@.len(),
{
    crate::services::algorithms::grid::lemma_cell_index_bound(p, map.width, map.height);
}

/// `wk` walks over on-grid cells from `a` to `b`, each cell next to the one
/// before.
pub open spec fn is_walk(map: WorldMap, wk: Seq<(usize, usize)>, a: (usize, usize), b: (usize, usize)) -> bool {
    &&& wk.len() > 0
    &&& wk[0] == a
    &&& wk.last() == b
    &&& forall|i: int| 0 <= i < wk.len() ==> on_grid(#[trigger] wk[i], map.width, map.height)
    &&& forall|i: int| 0 <= i < wk.len() - 1 ==> adjacent(#[trigger] wk[i], wk[i + 1])
}

/// The summed step costs of walk `wk`.
pub open spec fn walk_cost(map: WorldMap, wk: Seq<(usize, usize)>) -> nat
    decreases wk.len(),
{
    if wk.len() <= 1 {
        0
    } else {
        step_between(map, wk[0], wk[1]) + walk_cost(map, wk.drop_first())
    }
}

/// A walk splits at any of its cells into two walks whose costs add up.
pub proof fn lemma_walk_split(map: WorldMap, wk: Seq<(usize, usize)>, i: int)
    requires
        0 <= i < wk.len(),
    ensures
        walk_cost(map, wk) == walk_cost(map, wk.take(i + 1)) + walk_cost(map, wk.skip(i)),
    decreases i,
{
    if i == 0 {
        assert(wk.skip(0) =~= wk);
        assert(wk.take(1).len() == 1);
    } else {
        let df = wk.drop_first();
        lemma_walk_split(map, df, i - 1);
        assert(df.skip(i - 1) =~= wk.skip(i));
        assert(wk.take(i + 1).drop_first() =~= df.take(i));
        assert(wk.take(i + 1)[0] == wk[0]);
        assert(wk.take(i + 1)[1] == wk[1]);
    }
}

/// The first `i + 1` cells of a walk from `a` walk from `a` to cell `i`.
pub proof fn lemma_walk_take(map: WorldMap, wk: Seq<(usize, usize)>, a: (usize, usize), b: (usize, usize), i: int)
    requires
        is_walk(map, wk, a, b),
        0 <= i < wk.len(),
    ensures
        is_walk(map, wk.take(i + 1), a, wk[i]),
{
    let t = wk.take(i + 1);
    assert forall|j: int| 0 <= j < t.len() implies on_grid(#[trigger] t[j], map.width, map.height) by {
        assert(t[j] == wk[j]);
    }
    assert forall|j: int| 0 <= j < t.len() - 1 implies adjacent(#[trigger] t[j], t[j + 1]) by {
        assert(t[j] == wk[j] && t[j + 1] == wk[j + 1]);
    }
}

/// The cells of a walk to `b` from cell `i` on walk from cell `i` to `b`.
pub proof fn lemma_walk_skip(map: WorldMap, wk: Seq<(usize, usize)>, a: (usize, usize), b: (usize, usize), i: int)
    requires
        is_walk(map, wk, a, b),
        0 <= i < wk.len(),
    ensures
        is_walk(map, wk.skip(i), wk[i], b),
{
    let t = wk.skip(i);
    assert(t.last() == wk.last());
    assert forall|j: int| 0 <= j < t.len() implies on_grid(#[trigger] t[j], map.width, map.height) by {
        assert(t[j] == wk[i + j]);
    }
    assert forall|j: int| 0 <= j < t.len() - 1 implies adjacent(#[trigger] t[j], t[j + 1]) by {
        assert(t[j] == wk[i + j] && t[j + 1] == wk[i + j + 1]);
    }
}

} // verus!
